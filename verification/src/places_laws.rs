//! What holds of paths of the file system.

use vstd::prelude::*;
use crate::paths::{
    above, components, dot, here, is_slash, ordinary, ordinary_name, slash, written,
};
use crate::places::{
    behind, behind_steps, cut_back, cut_front, idle_back, idle_front, lies_within, place_in,
    rest_in, steps,
};
use crate::text::{
    begins_with, is_field, lemma_field_alone, lemma_fields_at_separator, lemma_joined_fields,
    lemma_until, lemma_until_is, until,
};

verus! {

/// The names in a path, without the steps to where it stands.
spec fn names(path: Seq<u8>) -> Seq<Seq<u8>> {
    components(path).filter(|name: Seq<u8>| name != here())
}

proof fn lemma_one_name(name: Seq<u8>)
    requires
        is_field(name, is_slash()),
    ensures
        names(name) == (if name == here() {
            Seq::<Seq<u8>>::empty()
        } else {
            seq![name]
        }),
{
    lemma_field_alone(name, is_slash());
    let other = |name: Seq<u8>| name != here();
    let none = Seq::<Seq<u8>>::empty();
    assert(seq![name] =~= none.push(name));
    assert(none.filter(other) =~= none) by {
        reveal(Seq::filter);
    }
    none.lemma_filter_push(name, other);
    assert(names(name) == seq![name].filter(other));
}

proof fn lemma_names_at_slash(a: Seq<u8>, b: Seq<u8>)
    ensures
        names(a + seq![slash()] + b) == names(a) + names(b),
{
    lemma_fields_at_separator(a, slash(), b, is_slash());
    Seq::filter_distributes_over_add(
        components(a),
        components(b),
        |name: Seq<u8>| name != here(),
    );
}

proof fn lemma_no_names()
    ensures
        names(Seq::<u8>::empty()) == Seq::<Seq<u8>>::empty(),
        is_field(here(), is_slash()),
        names(here()) == Seq::<Seq<u8>>::empty(),
{
    reveal(Seq::filter);
    assert(components(Seq::<u8>::empty()) =~= Seq::<Seq<u8>>::empty());
    assert(names(Seq::<u8>::empty()) =~= Seq::<Seq<u8>>::empty());
    lemma_one_name(here());
}

proof fn lemma_idle_front(path: Seq<u8>)
    requires
        idle_front(path),
    ensures
        names(path.skip(1)) == names(path),
{
    lemma_no_names();
    let none = Seq::<u8>::empty();
    if path[0] == slash() {
        assert(path =~= none + seq![slash()] + path.skip(1));
        lemma_names_at_slash(none, path.skip(1));
        assert(names(none) + names(path.skip(1)) =~= names(path.skip(1)));
    } else if path.len() == 1 {
        assert(path =~= here());
        assert(path.skip(1) =~= none);
    } else {
        let rest = path.skip(2);
        assert(path =~= here() + seq![slash()] + rest);
        assert(path.skip(1) =~= none + seq![slash()] + rest);
        lemma_names_at_slash(here(), rest);
        lemma_names_at_slash(none, rest);
    }
}

proof fn lemma_idle_back(path: Seq<u8>)
    requires
        idle_back(path),
    ensures
        names(path.drop_last()) == names(path),
{
    lemma_no_names();
    let none = Seq::<u8>::empty();
    if path.last() == slash() {
        assert(path =~= path.drop_last() + seq![slash()] + none);
        lemma_names_at_slash(path.drop_last(), none);
        assert(names(path.drop_last()) + names(none) =~= names(path.drop_last()));
    } else if path.len() == 1 {
        assert(path =~= here());
        assert(path.drop_last() =~= none);
    } else {
        let rest = path.take(path.len() - 2);
        assert(path =~= rest + seq![slash()] + here());
        assert(path.drop_last() =~= rest + seq![slash()] + none);
        lemma_names_at_slash(rest, here());
        lemma_names_at_slash(rest, none);
    }
}

proof fn lemma_cut_front(path: Seq<u8>)
    ensures
        names(cut_front(path)) == names(path),
        !idle_front(cut_front(path)),
    decreases path.len(),
{
    if idle_front(path) {
        lemma_idle_front(path);
        lemma_cut_front(path.skip(1));
    }
}

proof fn lemma_cut_back(path: Seq<u8>)
    ensures
        names(cut_back(path)) == names(path),
        !idle_back(cut_back(path)),
        cut_back(path).len() <= path.len(),
        cut_back(path) == path.take(cut_back(path).len() as int),
    decreases path.len(),
{
    if idle_back(path) {
        lemma_idle_back(path);
        lemma_cut_back(path.drop_last());
        let n = cut_back(path).len() as int;
        assert(path.drop_last().take(n) =~= path.take(n));
    } else {
        assert(path.take(path.len() as int) =~= path);
    }
}

/// The first name of a path, where the path begins with one.
proof fn lemma_first_name(path: Seq<u8>)
    requires
        !idle_front(path),
        path.len() > 0,
    ensures
        ({
            let k = until(path, is_slash()) as int;
            &&& 0 < k <= path.len()
            &&& path.take(k) != here()
            &&& components(path).len() > 0
            &&& components(path)[0] == path.take(k)
            &&& names(path) == seq![path.take(k)] + names(path.skip(k))
        }),
{
    lemma_until(path, is_slash());
    lemma_no_names();
    let k = until(path, is_slash()) as int;
    let first = path.take(k);
    assert(!is_slash()(path[0]));
    assert forall|i: int| 0 <= i < first.len() implies !is_slash()(#[trigger] first[i]) by {
        assert(first[i] == path[i]);
    }
    lemma_one_name(first);
    if first == here() {
        assert(first[0] == dot() && first.len() == 1);
    }
    if k == path.len() {
        assert(first =~= path);
        assert(path.skip(k) =~= Seq::<u8>::empty());
        assert(names(path) =~= seq![first] + names(path.skip(k)));
    } else {
        let rest = path.skip(k + 1);
        let none = Seq::<u8>::empty();
        assert(path =~= first + seq![slash()] + rest);
        assert(path.skip(k) =~= none + seq![slash()] + rest);
        lemma_names_at_slash(first, rest);
        lemma_names_at_slash(none, rest);
        assert(names(none) + names(rest) =~= names(rest));
    }
}

proof fn lemma_behind(path: Seq<u8>, n: nat)
    requires
        n <= names(path).len(),
    ensures
        names(behind(path, n)) == names(path).skip(n as int),
        !idle_front(behind(path, n)),
    decreases n,
{
    lemma_cut_front(path);
    if n == 0 {
        assert(names(path).skip(0) =~= names(path));
    } else {
        let rest = cut_front(path);
        lemma_no_names();
        if rest.len() == 0 {
            assert(rest =~= Seq::<u8>::empty());
        }
        lemma_first_name(rest);
        let k = until(rest, is_slash()) as int;
        assert(names(rest).skip(1) =~= names(rest.skip(k)));
        lemma_behind(rest.skip(k), (n - 1) as nat);
        assert(names(rest.skip(k)).skip(n - 1) =~= names(path).skip(n as int));
    }
}

proof fn lemma_components_at_slash(a: Seq<u8>, b: Seq<u8>)
    ensures
        components(a + seq![slash()] + b) == components(a) + components(b),
{
    lemma_fields_at_separator(a, slash(), b, is_slash());
}

proof fn lemma_no_components()
    ensures
        components(Seq::<u8>::empty()).len() == 0,
        components(here()) == seq![here()],
{
    lemma_no_names();
    lemma_field_alone(here(), is_slash());
}

proof fn lemma_components_from_here(path: Seq<u8>)
    requires
        idle_front(path),
        path[0] != slash(),
    ensures
        components(path).len() > 0,
        components(path)[0] == here(),
        components(path).drop_first() == components(path.skip(1)),
{
    lemma_no_components();
    let none = Seq::<u8>::empty();
    if path.len() == 1 {
        assert(path =~= here());
        assert(path.skip(1) =~= none);
    } else {
        let rest = path.skip(2);
        assert(path =~= here() + seq![slash()] + rest);
        assert(path.skip(1) =~= none + seq![slash()] + rest);
        lemma_components_at_slash(here(), rest);
        lemma_components_at_slash(none, rest);
    }
    assert(components(path).drop_first() =~= components(path.skip(1)));
}

/// The steps of a path: its first step where it begins at the root or with a step to where it
/// stands, and its names.
proof fn lemma_steps(path: Seq<u8>)
    ensures
        idle_front(path) ==> steps(path) == seq![path.take(1)] + names(path.skip(1)),
        !idle_front(path) ==> steps(path) == names(path),
{
    if idle_front(path) {
        if path[0] == slash() {
            lemma_idle_front(path);
            assert(path.take(1) =~= seq![slash()]);
        } else {
            assert(path.take(1) =~= here());
            lemma_components_from_here(path);
        }
    } else if path.len() > 0 {
        lemma_first_name(path);
    } else {
        assert(components(path).len() == 0);
    }
}

proof fn lemma_behind_steps(path: Seq<u8>, n: nat)
    requires
        n <= steps(path).len(),
    ensures
        steps(behind_steps(path, n)) == steps(path).skip(n as int),
{
    lemma_steps(path);
    let rest = behind_steps(path, n);
    lemma_steps(rest);
    if n == 0 {
        assert(steps(path).skip(0) =~= steps(path));
        if idle_front(path) {
            let body = path.skip(1);
            lemma_cut_back(body);
            assert(rest.take(1) =~= path.take(1));
            assert(rest.skip(1) =~= cut_back(body));
            assert(idle_front(rest));
        } else {
            lemma_cut_back(path);
            lemma_still_no_idle_front(path);
        }
    } else {
        let (body, m) = if idle_front(path) {
            (path.skip(1), (n - 1) as nat)
        } else {
            (path, n)
        };
        lemma_behind(body, m);
        lemma_cut_back(behind(body, m));
        lemma_still_no_idle_front(behind(body, m));
        assert(names(body).skip(m as int) =~= steps(path).skip(n as int));
    }
}

proof fn lemma_still_no_idle_front(path: Seq<u8>)
    requires
        !idle_front(path),
    ensures
        !idle_front(cut_back(path)),
{
    lemma_cut_back(path);
    let cut = cut_back(path);
    if cut.len() > 0 {
        assert(cut[0] == path[0]);
        if cut.len() > 1 {
            assert(cut[1] == path[1]);
        }
    }
}

/// What leads from a directory to a path has exactly the steps of the path that are not those of
/// the directory.
pub proof fn law_the_rest_has_the_remaining_steps(directory: Seq<u8>, path: Seq<u8>)
    requires
        lies_within(path, directory),
    ensures
        rest_in(directory, path) matches Some(rest) && steps(directory) + steps(rest) == steps(path),
{
    let n = steps(directory).len();
    lemma_behind_steps(path, n);
    assert(steps(path).take(n as int) + steps(path).skip(n as int) =~= steps(path));
}

/// The steps of a path that is written with ordinary names are these names; behind a slash the root
/// of the file system comes first.
pub proof fn law_ordinary_paths_have_their_names_as_steps(path: Seq<Seq<u8>>)
    requires
        ordinary(path),
    ensures
        steps(written(path)) == path,
        steps(seq![47u8] + written(path)) == seq![seq![47u8]] + path,
{
    let w = written(path);
    lemma_ordinary_names(path);
    let rooted = seq![slash()] + w;
    assert(rooted.skip(1) =~= w);
    assert(rooted.take(1) =~= seq![slash()]);
    lemma_steps(rooted);
    lemma_steps(w);
}

pub proof fn lemma_ordinary_names(path: Seq<Seq<u8>>)
    requires
        ordinary(path),
    ensures
        components(written(path)) == path,
        components(written(path)).filter(|name: Seq<u8>| name != here()) == path,
        !idle_front(written(path)),
        !idle_back(written(path)),
{
    let w = written(path);
    assert forall|i: int| 0 <= i < path.len() implies is_field(#[trigger] path[i], is_slash()) by {
        let name = path[i];
        assert(ordinary_name(name));
        assert forall|j: int| 0 <= j < name.len() implies !is_slash()(#[trigger] name[j]) by {
            assert(name.contains(name[j]));
        }
    }
    lemma_joined_fields(path, slash(), is_slash());
    let other = |name: Seq<u8>| name != here();
    assert(path.filter(other) == path) by {
        lemma_all_kept(path, other);
    }
    lemma_first_component(w);
    if path.len() > 0 {
        lemma_last_component(path);
    }
}

proof fn lemma_all_kept(path: Seq<Seq<u8>>, other: spec_fn(Seq<u8>) -> bool)
    requires
        forall|i: int| 0 <= i < path.len() ==> other(#[trigger] path[i]),
    ensures
        path.filter(other) == path,
    decreases path.len(),
{
    reveal(Seq::filter);
    if path.len() > 0 {
        lemma_all_kept(path.drop_last(), other);
        assert(path.drop_last().push(path.last()) =~= path);
    }
}

/// A written path of ordinary names does not begin idly: its first byte is that of a name.
proof fn lemma_first_component(w: Seq<u8>)
    requires
        ordinary(components(w)),
        w == written(components(w)),
    ensures
        !idle_front(w),
{
    let path = components(w);
    if !idle_front(w) {
    } else if w[0] == slash() {
        assert(path.len() > 0) by {
            if path.len() == 0 {
                assert(w.len() == 0);
            }
        }
        lemma_written_begins(path);
        assert(ordinary_name(path[0]));
        assert(path[0].contains(path[0][0]));
    } else {
        lemma_components_from_here(w);
        assert(ordinary_name(path[0]));
    }
}

proof fn lemma_written_begins(path: Seq<Seq<u8>>)
    requires
        path.len() > 0,
        ordinary(path),
    ensures
        written(path).len() > 0,
        written(path)[0] == path[0][0],
    decreases path.len(),
{
    assert(ordinary_name(path[0]));
    if path.len() > 1 {
        lemma_written_begins(path.drop_last());
        assert(path.drop_last()[0] == path[0]);
    }
}

/// A written path of ordinary names does not end idly: its last byte is that of a name.
proof fn lemma_last_component(path: Seq<Seq<u8>>)
    requires
        ordinary(path),
        path.len() > 0,
    ensures
        !idle_back(written(path)),
{
    let w = written(path);
    let name = path.last();
    assert(ordinary_name(path[path.len() - 1]));
    assert(name.len() > 0);
    let n = w.len() as int;
    if path.len() == 1 {
        assert(w == name);
    } else {
        assert(w == written(path.drop_last()) + seq![slash()] + name);
    }
    assert(w[n - 1] == name.last());
    assert(name.contains(name.last()));
    if name.len() == 1 {
        assert(name[0] == dot() ==> name =~= here());
    } else {
        assert(w[n - 2] == name[name.len() - 2]);
        assert(name.contains(name[name.len() - 2]));
    }
}

/// A place of the library lies in it, is told by its names, and is written as these names; another
/// place lies beneath it exactly where its names go on from those of this one.
pub proof fn law_places_of_a_library(root: Seq<u8>, path: Seq<Seq<u8>>, other: Seq<Seq<u8>>)
    requires
        root.len() > 0,
        root[0] == 47,
        ordinary(path),
        ordinary(other),
    ensures
        ({
            let place = root + seq![47u8] + written(path);
            let beside = root + seq![47u8] + written(other);
            &&& steps(place) == steps(root) + path
            &&& lies_within(place, root)
            &&& place_in(root, place) == Some(path)
            &&& rest_in(root, place) == Some(written(path))
            &&& lies_within(beside, place) <==> path.len() <= other.len() && other.take(
                path.len() as int,
            ) == path
        }),
{
    lemma_place(root, path);
    lemma_place(root, other);
    let r = steps(root);
    let place = root + seq![slash()] + written(path);
    let beside = root + seq![slash()] + written(other);
    assert((r + path).take(r.len() as int) =~= r);
    assert((r + path).skip(r.len() as int) =~= path);
    let within = begins_with(steps(beside), steps(place));
    if within {
        assert forall|i: int| 0 <= i < path.len() implies other[i] == path[i] by {
            assert((r + other).take((r + path).len() as int)[r.len() + i] == (r + path)[r.len() + i]);
        }
        assert(other.take(path.len() as int) =~= path);
    }
    if path.len() <= other.len() && other.take(path.len() as int) == path {
        assert forall|i: int| 0 <= i < path.len() implies other[i] == path[i] by {
            assert(other.take(path.len() as int)[i] == path[i]);
        }
        assert((r + other).take((r + path).len() as int) =~= r + path);
    }
    let body = root.skip(1);
    assert(place.skip(1) =~= body + seq![slash()] + written(path));
    lemma_steps(root);
    lemma_behind_all(body, written(path));
    lemma_ordinary_names(path);
    assert(cut_front(written(path)) == written(path));
    assert(cut_back(written(path)) == written(path));
}

/// A path stands for a place of the library only where it lies in the library, and behind the steps
/// of the library has ordinary names alone: what goes up again stands for none.
pub proof fn law_only_ordinary_names_lead_to_places(root: Seq<u8>, path: Seq<u8>)
    ensures
        match place_in(root, path) {
            Some(place) => steps(path) == steps(root) + place && forall|i: int|
                0 <= i < place.len() ==> #[trigger] place[i] != seq![46u8] && place[i] != seq![
                    46u8,
                    46u8,
                ] && place[i].len() > 0 && !place[i].contains(47),
            None => forall|place: Seq<Seq<u8>>|
                ordinary(place) ==> steps(path) != #[trigger] (steps(root) + place),
        },
{
    let r = steps(root);
    let n = r.len() as int;
    let rest = steps(path).skip(n);
    if lies_within(path, root) {
        assert(steps(path) =~= steps(path).take(n) + rest);
    }
    assert(here() =~= seq![46u8]);
    assert(above() =~= seq![46u8, 46u8]);
    if let Some(place) = place_in(root, path) {
        assert forall|i: int| 0 <= i < place.len() implies #[trigger] place[i] != seq![46u8]
            && place[i] != seq![46u8, 46u8] && place[i].len() > 0 && !place[i].contains(47) by {
            assert(ordinary_name(place[i]));
        }
    } else {
        assert forall|place: Seq<Seq<u8>>| ordinary(place) implies steps(path) != #[trigger] (r
            + place) by {
            assert((r + place).take(n) =~= r);
            assert((r + place).skip(n) =~= place);
        }
    }
}

proof fn lemma_place(root: Seq<u8>, path: Seq<Seq<u8>>)
    requires
        root.len() > 0,
        root[0] == slash(),
        ordinary(path),
    ensures
        steps(root + seq![slash()] + written(path)) == steps(root) + path,
{
    let place = root + seq![slash()] + written(path);
    lemma_steps(place);
    lemma_steps(root);
    let body = root.skip(1);
    assert(place.skip(1) =~= body + seq![slash()] + written(path));
    assert(place.take(1) =~= root.take(1));
    lemma_names_at_slash(body, written(path));
    lemma_ordinary_names(path);
    assert(seq![root.take(1)] + (names(body) + path) =~= seq![root.take(1)] + names(body) + path);
}

/// Behind all names of what stands before a slash comes what follows the slash.
proof fn lemma_behind_all(a: Seq<u8>, w: Seq<u8>)
    ensures
        behind(a + seq![slash()] + w, names(a).len()) == cut_front(w),
    decreases a.len(),
{
    let all = a + seq![slash()] + w;
    lemma_no_names();
    if a.len() == 0 {
        assert(a =~= Seq::<u8>::empty());
        assert(all.skip(1) =~= w);
        assert(idle_front(all));
    } else if idle_front(a) {
        lemma_idle_front(a);
        assert(all[0] == a[0]);
        assert(all[1] == (if a.len() > 1 {
            a[1]
        } else {
            slash()
        }));
        assert(idle_front(all));
        assert(all.skip(1) =~= a.skip(1) + seq![slash()] + w);
        assert(cut_front(all) == cut_front(all.skip(1)));
        lemma_behind_all(a.skip(1), w);
    } else {
        lemma_first_name(a);
        lemma_until(a, is_slash());
        let k = until(a, is_slash()) as int;
        assert(names(a).len() == 1 + names(a.skip(k)).len());
        assert(all[0] == a[0]);
        assert(!idle_front(all)) by {
            if a.len() > 1 {
                assert(all[1] == a[1]);
            }
        }
        assert forall|i: int| 0 <= i < k implies !is_slash()(#[trigger] all[i]) by {
            assert(all[i] == a[i]);
        }
        assert(is_slash()(all[k])) by {
            if k < a.len() {
                assert(all[k] == a[k]);
            }
        }
        lemma_until_is(all, is_slash(), k as nat);
        assert(all.skip(k) =~= a.skip(k) + seq![slash()] + w);
        lemma_behind_all(a.skip(k), w);
    }
}

} // verus!
