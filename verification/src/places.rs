//! Paths of the file system, and where they lie in a library.

use vstd::prelude::*;
use crate::paths::{
    byte_views, components, dot, here, is_above, is_here, is_slash, ordinary, path_extension, slash,
    split_components, split_name, LibraryPath,
};
use crate::text::{begins_with, bytes_eq, copy_of, lemma_until_is, until};

verus! {

/// The steps of a path of the file system, with a slash for the root. A step to where it stands
/// counts only at the beginning of a relative path.
pub open spec fn steps(path: Seq<u8>) -> Seq<Seq<u8>> {
    if path.len() > 0 && path[0] == slash() {
        seq![seq![slash()]] + components(path).filter(|name: Seq<u8>| name != here())
    } else {
        let names = components(path);
        if names.len() > 0 && names[0] == here() {
            seq![here()] + names.drop_first().filter(|name: Seq<u8>| name != here())
        } else {
            names.filter(|name: Seq<u8>| name != here())
        }
    }
}

/// Whether a path of the file system lies at or beneath a directory.
pub open spec fn lies_within(path: Seq<u8>, directory: Seq<u8>) -> bool {
    begins_with(steps(path), steps(directory))
}

/// The names from `from` on that are not a step to where it stands, behind those of `first`.
fn collect_steps(first: Vec<Vec<u8>>, names: Vec<Vec<u8>>, from: usize) -> (res: Vec<Vec<u8>>)
    requires
        from <= names@.len(),
    ensures
        byte_views(res@) == byte_views(first@)
            + byte_views(names@).skip(from as int).filter(
            |name: Seq<u8>| name != here(),
        ),
{
    let ghost other = |name: Seq<u8>| name != here();
    let ghost views = byte_views(names@);
    let mut res: Vec<Vec<u8>> = first;
    let ghost start = byte_views(res@);
    let mut i: usize = from;
    proof {
        reveal(Seq::filter);
        assert(views.subrange(from as int, from as int).filter(other) =~= Seq::empty());
        assert(start + Seq::empty() =~= start);
    }
    while i < names.len()
        invariant
            from <= i <= names.len(),
            views == byte_views(names@),
            other == (|name: Seq<u8>| name != here()),
            byte_views(res@) == start + views.subrange(from as int, i as int).filter(
                other,
            ),
        decreases names.len() - i,
    {
        let ghost before = res@;
        proof {
            let part = views.subrange(from as int, i + 1);
            assert(part.drop_last() =~= views.subrange(from as int, i as int));
            assert(part.last() == names@[i as int]@);
            reveal(Seq::filter);
        }
        if !is_here(names[i].as_slice()) {
            res.push(copy_of(names[i].as_slice()));
            assert(byte_views(res@) =~= byte_views(before).push(
                names@[i as int]@,
            ));
        }
        assert(byte_views(res@) =~= start + views.subrange(
            from as int,
            i + 1,
        ).filter(other));
        i += 1;
    }
    assert(views.subrange(from as int, i as int) =~= views.skip(from as int));
    res
}

/// The steps of a path of the file system.
pub(crate) fn split_steps(path: &[u8]) -> (res: Vec<Vec<u8>>)
    ensures
        byte_views(res@) == steps(path@),
{
    let names: Vec<Vec<u8>> = split_components(path);
    let ghost views = byte_views(names@);
    let mut first: Vec<Vec<u8>> = Vec::new();
    if path.len() > 0 && path[0] == 47 {
        let root: Vec<u8> = vec![47u8];
        first.push(root);
        proof {
            assert(root@ =~= seq![slash()]);
            assert(byte_views(first@) =~= seq![seq![slash()]]);
            assert(views.skip(0) =~= views);
        }
        return collect_steps(first, names, 0);
    }
    assert(byte_views(first@) =~= Seq::empty());
    if names.len() > 0 && is_here(names[0].as_slice()) {
        assert(views[0] == names@[0]@);
        first.push(copy_of(names[0].as_slice()));
        proof {
            assert(byte_views(first@) =~= seq![here()]);
            assert(views.skip(1) =~= views.drop_first());
        }
        return collect_steps(first, names, 1);
    }
    proof {
        assert(names.len() > 0 ==> views[0] == names@[0]@);
        assert(views.skip(0) =~= views);
    }
    let res: Vec<Vec<u8>> = collect_steps(first, names, 0);
    assert(byte_views(res@) =~= steps(path@));
    res
}

/// Whether a path of the file system lies at or beneath a directory.
#[must_use]
pub fn is_within(path: &[u8], directory: &[u8]) -> (res: bool)
    ensures
        res == lies_within(path@, directory@),
{
    let inner: Vec<Vec<u8>> = split_steps(path);
    let outer: Vec<Vec<u8>> = split_steps(directory);
    let ghost within = byte_views(inner@);
    let ghost around = byte_views(outer@);
    if inner.len() < outer.len() {
        return false;
    }
    let mut i: usize = 0;
    while i < outer.len()
        invariant
            i <= outer.len() <= inner.len(),
            within == byte_views(inner@),
            around == byte_views(outer@),
            within == steps(path@),
            around == steps(directory@),
            forall|j: int| 0 <= j < i ==> within[j] == around[j],
        decreases outer.len() - i,
    {
        if !bytes_eq(inner[i].as_slice(), outer[i].as_slice()) {
            assert(within.take(around.len() as int)[i as int] != around[i as int]);
            return false;
        }
        assert(within[i as int] == around[i as int]);
        i += 1;
    }
    assert(within.take(around.len() as int) =~= around);
    true
}

/// The path of the library that a path of the file system stands for, where it lies in the
/// library and does not go up again.
pub open spec fn place_in(root: Seq<u8>, path: Seq<u8>) -> Option<Seq<Seq<u8>>> {
    let rest = steps(path).skip(steps(root).len() as int);
    if lies_within(path, root) && ordinary(rest) {
        Some(rest)
    } else {
        None
    }
}

/// The path of the library that a path of the file system stands for.
#[must_use]
pub fn library_path(root: &[u8], path: &[u8]) -> (res: Option<LibraryPath>)
    ensures
        res is Some <==> place_in(root@, path@) is Some,
        res matches Some(place) ==> Some(place@) == place_in(root@, path@),
{
    if !is_within(path, root) {
        return None;
    }
    let from: usize = split_steps(root).len();
    assert(from == steps(root@).len());
    let names: Vec<Vec<u8>> = split_steps(path);
    let ghost all = steps(path@);
    let mut rest: Vec<Vec<u8>> = Vec::new();
    let mut i: usize = from;
    assert(byte_views(rest@) =~= all.subrange(from as int, from as int));
    while i < names.len()
        invariant
            from <= i <= names.len(),
            all == byte_views(names@),
            byte_views(rest@) == all.subrange(from as int, i as int),
        decreases names.len() - i,
    {
        let ghost before = rest@;
        rest.push(copy_of(names[i].as_slice()));
        assert(byte_views(rest@) =~= byte_views(before).push(all[i as int]));
        assert(all.subrange(from as int, i + 1) =~= all.subrange(from as int, i as int).push(
            all[i as int],
        ));
        i += 1;
    }
    assert(all.subrange(from as int, i as int) =~= all.skip(from as int));
    LibraryPath::from_names(rest)
}

/// Whether a path begins with a slash, or with a step to where it stands.
pub open spec fn idle_front(path: Seq<u8>) -> bool {
    path.len() > 0 && (path[0] == slash() || (path[0] == dot() && (path.len() == 1 || path[1]
        == slash())))
}

/// Whether a path ends with a slash, or with a step to where it stands.
pub open spec fn idle_back(path: Seq<u8>) -> bool {
    path.len() > 0 && (path.last() == slash() || (path.last() == dot() && (path.len() == 1
        || path[path.len() - 2] == slash())))
}

/// A path without the slashes and the steps to where it stands that it begins with.
pub open spec fn cut_front(path: Seq<u8>) -> Seq<u8>
    decreases path.len(),
{
    if idle_front(path) {
        cut_front(path.skip(1))
    } else {
        path
    }
}

/// A path without the slashes and the steps to where it stands that it ends with.
pub open spec fn cut_back(path: Seq<u8>) -> Seq<u8>
    decreases path.len(),
{
    if idle_back(path) {
        cut_back(path.drop_last())
    } else {
        path
    }
}

/// What stands behind the first `n` steps of a path that begins neither at the root nor with a
/// step to where it stands.
pub open spec fn behind(path: Seq<u8>, n: nat) -> Seq<u8>
    decreases n,
{
    if n == 0 {
        cut_front(path)
    } else {
        let rest = cut_front(path);
        behind(rest.skip(until(rest, is_slash()) as int), (n - 1) as nat)
    }
}

/// What stands behind the first `n` steps of a path, as it stands there but for its ends.
pub open spec fn behind_steps(path: Seq<u8>, n: nat) -> Seq<u8> {
    if idle_front(path) {
        if n == 0 {
            path.take(1) + cut_back(path.skip(1))
        } else {
            cut_back(behind(path.skip(1), (n - 1) as nat))
        }
    } else if n == 0 {
        cut_back(path)
    } else {
        cut_back(behind(path, n))
    }
}

/// The rest of a path of the file system that lies at or beneath a directory: what leads from the
/// directory to it, written as it is.
pub open spec fn rest_in(directory: Seq<u8>, path: Seq<u8>) -> Option<Seq<u8>> {
    if lies_within(path, directory) {
        Some(behind_steps(path, steps(directory).len()))
    } else {
        None
    }
}

/// Where a path begins without the slashes and the steps to where it stands in front.
fn front_of(path: &[u8], from: usize) -> (res: usize)
    requires
        from <= path@.len(),
    ensures
        from <= res <= path@.len(),
        path@.skip(res as int) == cut_front(path@.skip(from as int)),
{
    let mut i: usize = from;
    while i < path.len() && (path[i] == 47 || (path[i] == 46 && (i + 1 == path.len() || path[i + 1]
        == 47)))
        invariant
            from <= i <= path@.len(),
            cut_front(path@.skip(i as int)) == cut_front(path@.skip(from as int)),
        decreases path@.len() - i,
    {
        assert(path@.skip(i as int).skip(1) =~= path@.skip(i + 1));
        i += 1;
    }
    i
}

/// Where a path ends without the slashes and the steps to where it stands at its end.
fn back_of(path: &[u8], from: usize) -> (res: usize)
    requires
        from <= path@.len(),
    ensures
        from <= res <= path@.len(),
        path@.subrange(from as int, res as int) == cut_back(path@.skip(from as int)),
{
    let mut i: usize = path.len();
    assert(path@.subrange(from as int, i as int) =~= path@.skip(from as int));
    while i > from && (path[i - 1] == 47 || (path[i - 1] == 46 && (i - 1 == from || path[i - 2]
        == 47)))
        invariant
            from <= i <= path@.len(),
            cut_back(path@.subrange(from as int, i as int)) == cut_back(path@.skip(from as int)),
        decreases i,
    {
        assert(path@.subrange(from as int, i as int).drop_last() =~= path@.subrange(
            from as int,
            i - 1,
        ));
        i -= 1;
    }
    i
}

/// Where the rest of a path behind its first steps begins, from a place behind the root.
fn behind_of(path: &[u8], from: usize, n: usize) -> (res: usize)
    requires
        from <= path@.len(),
    ensures
        from <= res <= path@.len(),
        path@.skip(res as int) == behind(path@.skip(from as int), n as nat),
{
    let mut at: usize = from;
    let mut left: usize = n;
    while left > 0
        invariant
            from <= at <= path@.len(),
            behind(path@.skip(at as int), left as nat) == behind(path@.skip(from as int), n as nat),
        decreases left,
    {
        let start: usize = front_of(path, at);
        let mut end: usize = start;
        while end < path.len() && path[end] != 47
            invariant
                start <= end <= path@.len(),
                forall|j: int| start <= j < end ==> path@[j] != slash(),
            decreases path@.len() - end,
        {
            end += 1;
        }
        proof {
            let rest = path@.skip(start as int);
            assert forall|j: int| 0 <= j < end - start implies !is_slash()(#[trigger] rest[j]) by {
                assert(rest[j] == path@[start + j]);
            }
            lemma_until_is(rest, is_slash(), (end - start) as nat);
            assert(rest.skip(end - start) =~= path@.skip(end as int));
        }
        at = end;
        left -= 1;
    }
    front_of(path, at)
}

/// What leads from a directory to a path of the file system at or beneath it, written as it is.
#[must_use]
pub fn strip_directory(directory: &[u8], path: &[u8]) -> (res: Option<Vec<u8>>)
    ensures
        res is Some <==> rest_in(directory@, path@) is Some,
        res matches Some(rest) ==> Some(rest@) == rest_in(directory@, path@),
{
    if !is_within(path, directory) {
        return None;
    }
    let n: usize = split_steps(directory).len();
    assert(n == steps(directory@).len());
    let idle: bool = path.len() > 0 && (path[0] == 47 || (path[0] == 46 && (path.len() == 1
        || path[1] == 47)));
    assert(path@.skip(0) =~= path@);
    let mut rest: Vec<u8> = Vec::new();
    let start: usize = if idle && n == 0 {
        rest.push(path[0]);
        1
    } else if idle {
        behind_of(path, 1, n - 1)
    } else if n == 0 {
        0
    } else {
        behind_of(path, 0, n)
    };
    let end: usize = back_of(path, start);
    let mut body: Vec<u8> = copy_of(vstd::slice::slice_subrange(path, start, end));
    rest.append(&mut body);
    assert(rest@ =~= behind_steps(path@, n as nat));
    Some(rest)
}

/// The extension of the last name of a path of the file system.
#[must_use]
pub fn last_extension(path: &[u8]) -> (res: Option<Vec<u8>>)
    ensures
        res is Some <==> path_extension(steps(path@)) is Some,
        res matches Some(extension) ==> Some(extension@) == path_extension(steps(path@)),
{
    let names: Vec<Vec<u8>> = split_steps(path);
    if names.len() == 0 {
        return None;
    }
    let last: &[u8] = names[names.len() - 1].as_slice();
    assert(steps(path@).last() == last@);
    if is_above(last) {
        return None;
    }
    match split_name(last).1 {
        Some(extension) => Some(copy_of(extension)),
        None => None,
    }
}

} // verus!
