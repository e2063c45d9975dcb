//! Paths beneath the library root.

use vstd::prelude::*;
use vstd::utf8::{decode_utf8, encode_utf8, valid_utf8};
use crate::text::{
    bytes_before, bytes_eq, bytes_lt, bytes_precede, copy_of, fields, is_field, joined,
    lemma_bytes_strict_total, lemma_lex_skip, lemma_until_is, lex_before, lossy_text,
    text_from_utf8, text_lossy,
};

verus! {

/// The byte that separates the names of a path.
pub open spec fn slash() -> u8 {
    47
}

/// The byte before an extension.
pub open spec fn dot() -> u8 {
    46
}

/// Whether a byte separates names.
pub open spec fn is_slash() -> spec_fn(u8) -> bool {
    |b: u8| b == slash()
}

/// The name of the current directory.
pub open spec fn here() -> Seq<u8> {
    seq![dot()]
}

/// The name of the parent directory.
pub open spec fn above() -> Seq<u8> {
    seq![dot(), dot()]
}

/// A name that an entry of a directory can have.
pub open spec fn ordinary_name(name: Seq<u8>) -> bool {
    &&& name.len() > 0
    &&& !name.contains(slash())
    &&& name != here()
    &&& name != above()
}

/// A path made of ordinary names only.
pub open spec fn ordinary(path: Seq<Seq<u8>>) -> bool {
    forall|i: int| 0 <= i < path.len() ==> ordinary_name(#[trigger] path[i])
}

/// Whether no name of a path holds a NUL.
pub open spec fn no_nul(path: Seq<Seq<u8>>) -> bool {
    forall|i: int| 0 <= i < path.len() ==> !(#[trigger] path[i]).contains(0)
}

/// The values of a list of byte strings.
pub open spec fn byte_views(names: Seq<Vec<u8>>) -> Seq<Seq<u8>> {
    Seq::new(names.len(), |i: int| names[i]@)
}

/// A path relative to the library root: a list of ordinary names, none of which leads upwards.
/// Names are bytes, as the file system has them, and need not be UTF-8.
#[derive(Debug, PartialEq, Eq)]
pub struct LibraryPath {
    names: Vec<Vec<u8>>,
}

impl View for LibraryPath {
    type V = Seq<Seq<u8>>;

    closed spec fn view(&self) -> Seq<Seq<u8>> {
        byte_views(self.names@)
    }
}

// ---------------------------------------------------------------------------
// Names
// ---------------------------------------------------------------------------

/// The index of the last dot of a name, or -1.
pub open spec fn last_dot(name: Seq<u8>) -> int
    decreases name.len(),
{
    if name.len() == 0 {
        -1
    } else if name.last() == dot() {
        name.len() - 1
    } else {
        last_dot(name.drop_last())
    }
}

/// The name without its extension. A dot that begins the name begins no extension.
pub open spec fn stem_of(name: Seq<u8>) -> Seq<u8> {
    if last_dot(name) <= 0 {
        name
    } else {
        name.take(last_dot(name))
    }
}

/// What follows the last dot of a name, unless that dot begins the name.
pub open spec fn extension_of(name: Seq<u8>) -> Option<Seq<u8>> {
    if last_dot(name) <= 0 {
        None
    } else {
        Some(name.skip(last_dot(name) + 1))
    }
}

/// What `last_dot` finds.
pub proof fn lemma_last_dot(name: Seq<u8>)
    ensures
        -1 <= last_dot(name) < name.len(),
        last_dot(name) >= 0 ==> name[last_dot(name)] == dot(),
        forall|i: int| last_dot(name) < i < name.len() ==> #[trigger] name[i] != dot(),
    decreases name.len(),
{
    if name.len() > 0 && name.last() != dot() {
        let rest = name.drop_last();
        lemma_last_dot(rest);
        assert forall|i: int| last_dot(name) < i < name.len() implies #[trigger] name[i] != dot() by {
            if i < rest.len() {
                assert(rest[i] == name[i]);
            }
        }
    }
}

/// The index with the properties of the last dot is the last dot.
pub proof fn lemma_last_dot_is(name: Seq<u8>, k: int)
    requires
        -1 <= k < name.len(),
        k >= 0 ==> name[k] == dot(),
        forall|i: int| k < i < name.len() ==> #[trigger] name[i] != dot(),
    ensures
        last_dot(name) == k,
{
    lemma_last_dot(name);
    let r = last_dot(name);
    if r < k {
        assert(name[k] != dot());
    }
    if k < r {
        assert(name[r] != dot());
    }
}

/// Splits a name into its stem and its extension.
pub(crate) fn split_name(name: &[u8]) -> (res: (&[u8], Option<&[u8]>))
    ensures
        res.0@ == stem_of(name@),
        res.1 is Some <==> extension_of(name@) is Some,
        res.1 matches Some(extension) ==> Some(extension@) == extension_of(name@),
{
    let mut n: usize = name.len();
    while n > 0 && name[n - 1] != 46
        invariant
            n <= name.len(),
            forall|i: int| n <= i < name@.len() ==> #[trigger] name@[i] != dot(),
        decreases n,
    {
        n -= 1;
    }
    proof {
        lemma_last_dot_is(name@, n - 1);
    }
    if n <= 1 {
        (name, None)
    } else {
        proof {
            assert(name@.subrange(0, n - 1) =~= name@.take(n - 1));
            assert(name@.subrange(n as int, name@.len() as int) =~= name@.skip(n as int));
        }
        (
            vstd::slice::slice_subrange(name, 0, n - 1),
            Some(vstd::slice::slice_subrange(name, n, name.len())),
        )
    }
}

/// Whether a name is ordinary.
fn is_ordinary_name(name: &[u8]) -> (res: bool)
    ensures
        res == ordinary_name(name@),
{
    if name.len() == 0 {
        return false;
    }
    let mut i: usize = 0;
    while i < name.len()
        invariant
            i <= name.len(),
            forall|j: int| 0 <= j < i ==> name@[j] != slash(),
        decreases name.len() - i,
    {
        if name[i] == 47 {
            assert(name@[i as int] == slash());
            return false;
        }
        i += 1;
    }
    assert(!name@.contains(slash()));
    assert(name@ == here() <==> name@.len() == 1 && name@[0] == dot()) by {
        if name@.len() == 1 && name@[0] == dot() {
            assert(name@ =~= here());
        }
    }
    assert(name@ == above() <==> name@.len() == 2 && name@[0] == dot() && name@[1] == dot()) by {
        if name@.len() == 2 && name@[0] == dot() && name@[1] == dot() {
            assert(name@ =~= above());
        }
    }
    if name.len() == 1 && name[0] == 46 {
        return false;
    }
    !(name.len() == 2 && name[0] == 46 && name[1] == 46)
}

/// Whether a name is that of the current directory.
pub(crate) fn is_here(name: &[u8]) -> (res: bool)
    ensures
        res == (name@ == here()),
{
    assert(name@ == here() <==> name@.len() == 1 && name@[0] == dot()) by {
        if name@.len() == 1 && name@[0] == dot() {
            assert(name@ =~= here());
        }
    }
    name.len() == 1 && name[0] == 46
}

/// Whether a name is that of the parent directory.
pub(crate) fn is_above(name: &[u8]) -> (res: bool)
    ensures
        res == (name@ == above()),
{
    assert(name@ == above() <==> name@.len() == 2 && name@[0] == dot() && name@[1] == dot()) by {
        if name@.len() == 2 && name@[0] == dot() && name@[1] == dot() {
            assert(name@ =~= above());
        }
    }
    name.len() == 2 && name[0] == 46 && name[1] == 46
}

// ---------------------------------------------------------------------------
// Written paths
// ---------------------------------------------------------------------------

/// The names in a written path: what stands between its slashes.
pub open spec fn components(written: Seq<u8>) -> Seq<Seq<u8>> {
    fields(written, is_slash())
}

/// A component has no slash and is not empty.
pub proof fn lemma_components(written: Seq<u8>)
    ensures
        forall|i: int|
            0 <= i < components(written).len() ==> (#[trigger] components(written)[i]).len() > 0
                && !components(written)[i].contains(slash()),
{
    crate::text::lemma_fields(written, is_slash());
    let all = components(written);
    assert forall|i: int| 0 <= i < all.len() implies (#[trigger] all[i]).len() > 0
        && !all[i].contains(slash()) by {
        assert(is_field(all[i], is_slash()));
        assert forall|j: int| 0 <= j < all[i].len() implies all[i][j] != slash() by {
            assert(!is_slash()(all[i][j]));
        }
    }
}

/// Splits a written path at its slashes.
pub fn split_components(written: &[u8]) -> (res: Vec<Vec<u8>>)
    ensures
        byte_views(res@) == components(written@),
{
    let mut res: Vec<Vec<u8>> = Vec::new();
    let mut i: usize = 0;
    assert(written@.skip(0) =~= written@);
    assert(byte_views(res@) =~= Seq::<Seq<u8>>::empty());
    while i < written.len()
        invariant
            i <= written.len(),
            components(written@) =~= byte_views(res@) + components(written@.skip(i as int)),
        decreases written.len() - i,
    {
        let ghost rest = written@.skip(i as int);
        let start: usize = i;
        while i < written.len() && written[i] != 47
            invariant
                start <= i <= written.len(),
                forall|j: int| start <= j < i ==> written@[j] != slash(),
            decreases written.len() - i,
        {
            i += 1;
        }
        proof {
            let k = (i - start) as nat;
            assert forall|j: int| 0 <= j < k implies !is_slash()(#[trigger] rest[j]) by {
                assert(rest[j] == written@[start + j]);
            }
            lemma_until_is(rest, is_slash(), k);
            assert(rest.take(k as int) =~= written@.subrange(start as int, i as int));
            assert(rest.skip(k as int) =~= written@.skip(i as int));
        }
        if i > start {
            let ghost before = byte_views(res@);
            let name: Vec<u8> = copy_of(vstd::slice::slice_subrange(written, start, i));
            res.push(name);
            assert(byte_views(res@) =~= before.push(written@.subrange(start as int, i as int)));
        } else {
            i += 1;
            assert(rest.drop_first() =~= written@.skip(i as int));
        }
    }
    assert(written@.skip(i as int) =~= Seq::empty());
    res
}

/// The written form of a path: its names with slashes between them.
pub open spec fn written(path: Seq<Seq<u8>>) -> Seq<u8> {
    joined(path, seq![slash()])
}

/// Text that bytes stand for when they are shown.
pub open spec fn shown(bytes: Seq<u8>) -> Seq<char> {
    if valid_utf8(bytes) {
        decode_utf8(bytes)
    } else {
        lossy_text(bytes)
    }
}

/// The text to show for bytes.
pub fn show(bytes: &[u8]) -> (res: String)
    ensures
        res@ == shown(bytes@),
{
    match text_from_utf8(bytes) {
        Some(text) => text.to_owned(),
        None => text_lossy(bytes),
    }
}

/// The path that a written, relative path without upward steps stands for.
pub open spec fn parsed(written: Seq<u8>) -> Option<Seq<Seq<u8>>> {
    if written.len() > 0 && written[0] == slash() {
        None
    } else if components(written).contains(above()) {
        None
    } else {
        Some(components(written).filter(|name: Seq<u8>| name != here()))
    }
}

// ---------------------------------------------------------------------------
// Order
// ---------------------------------------------------------------------------

/// The order of paths: name by name, each name by its bytes.
pub open spec fn path_before(a: Seq<Seq<u8>>, b: Seq<Seq<u8>>) -> bool {
    lex_before(a, b, bytes_lt())
}

/// Paths are in a strict total order.
pub proof fn lemma_path_order(a: Seq<Seq<u8>>, b: Seq<Seq<u8>>, c: Seq<Seq<u8>>)
    ensures
        !path_before(a, a),
        path_before(a, b) || path_before(b, a) || a == b,
        !(path_before(a, b) && path_before(b, a)),
        path_before(a, b) && path_before(b, c) ==> path_before(a, c),
{
    lemma_bytes_strict_total();
    crate::text::lemma_lex_total(a, b, bytes_lt());
    if path_before(a, b) && path_before(b, c) {
        crate::text::lemma_lex_transitive(a, b, c, bytes_lt());
    }
}

// ---------------------------------------------------------------------------
// LibraryPath
// ---------------------------------------------------------------------------

/// Whether `path` lies at or beneath `base`.
pub open spec fn lies_beneath(path: Seq<Seq<u8>>, base: Seq<Seq<u8>>) -> bool {
    base.len() <= path.len() && path.take(base.len() as int) == base
}

/// The path as seen from `base`, where it lies beneath it; else the path itself.
pub open spec fn relative_to(path: Seq<Seq<u8>>, base: Seq<Seq<u8>>) -> Seq<Seq<u8>> {
    if lies_beneath(path, base) {
        path.skip(base.len() as int)
    } else {
        path
    }
}

impl LibraryPath {
    /// Every name is ordinary.
    #[verifier::type_invariant]
    pub open spec fn well_formed(&self) -> bool {
        ordinary(self@)
    }

    /// The path of the library root itself.
    pub fn empty() -> (res: LibraryPath)
        ensures
            res@ == Seq::<Seq<u8>>::empty(),
    {
        let names: Vec<Vec<u8>> = Vec::new();
        assert(byte_views(names@) =~= Seq::<Seq<u8>>::empty());
        LibraryPath { names }
    }

    /// The path with the given names, if each is ordinary.
    pub fn from_names(names: Vec<Vec<u8>>) -> (res: Option<LibraryPath>)
        ensures
            res is Some <==> ordinary(byte_views(names@)),
            res matches Some(path) ==> path@ == byte_views(names@),
    {
        let mut i: usize = 0;
        while i < names.len()
            invariant
                i <= names.len(),
                forall|j: int| 0 <= j < i ==> ordinary_name(#[trigger] byte_views(names@)[j]),
            decreases names.len() - i,
        {
            if !is_ordinary_name(names[i].as_slice()) {
                assert(!ordinary_name(byte_views(names@)[i as int]));
                return None;
            }
            i += 1;
        }
        Some(LibraryPath { names })
    }

    /// The path that a written, relative path stands for: `.` is skipped; a leading slash or a
    /// `..` makes it no path of the library.
    pub fn parse(text: &str) -> (res: Option<LibraryPath>)
        ensures
            res is Some <==> parsed(encode_utf8(text@)) is Some,
            res matches Some(path) ==> Some(path@) == parsed(encode_utf8(text@)),
    {
        let bytes: &[u8] = text.as_bytes();
        let ghost all = components(bytes@);
        let ghost keep = |name: Seq<u8>| name != here();
        if bytes.len() > 0 && bytes[0] == 47 {
            return None;
        }
        let parts: Vec<Vec<u8>> = split_components(bytes);
        let mut names: Vec<Vec<u8>> = Vec::new();
        let mut i: usize = 0;
        proof {
            lemma_components(bytes@);
            reveal(Seq::filter);
            assert(byte_views(names@) =~= all.take(0).filter(keep));
        }
        while i < parts.len()
            invariant
                i <= parts.len(),
                bytes@ == encode_utf8(text@),
                all == components(bytes@),
                byte_views(parts@) == all,
                forall|j: int|
                    0 <= j < all.len() ==> (#[trigger] all[j]).len() > 0 && !all[j].contains(
                        slash(),
                    ),
                forall|j: int| 0 <= j < i ==> #[trigger] all[j] != above(),
                keep == (|name: Seq<u8>| name != here()),
                byte_views(names@) == all.take(i as int).filter(keep),
                ordinary(byte_views(names@)),
            decreases parts.len() - i,
        {
            let part: &Vec<u8> = &parts[i];
            assert(part@ == all[i as int]);
            if is_above(part.as_slice()) {
                assert(all.contains(above()));
                return None;
            }
            let ghost before = byte_views(names@);
            assert(all.take(i + 1).drop_last() =~= all.take(i as int));
            assert(all.take(i + 1).last() == all[i as int]);
            proof {
                reveal(Seq::filter);
            }
            if !is_here(part.as_slice()) {
                names.push(copy_of(part.as_slice()));
                assert(byte_views(names@) =~= before.push(part@));
            }
            i += 1;
        }
        assert(all.take(i as int) =~= all);
        assert(!all.contains(above()));
        Some(LibraryPath { names })
    }

    /// The number of names.
    pub fn len(&self) -> (res: usize)
        ensures
            res == self@.len(),
    {
        self.names.len()
    }

    /// Whether this is the library root itself.
    pub fn is_empty(&self) -> (res: bool)
        ensures
            res == (self@.len() == 0),
    {
        self.names.len() == 0
    }

    /// The name at a position.
    pub fn name(&self, i: usize) -> (res: &[u8])
        requires
            i < self@.len(),
        ensures
            res@ == self@[i as int],
            ordinary_name(res@),
    {
        proof {
            use_type_invariant(self);
            assert(ordinary_name(self@[i as int]));
        }
        self.names[i].as_slice()
    }

    /// The first `n` names.
    fn first_names(&self, n: usize) -> (res: LibraryPath)
        requires
            n <= self@.len(),
        ensures
            res@ == self@.take(n as int),
    {
        self.names_between(0, n)
    }

    /// The names from `lo` up to `hi`.
    fn names_between(&self, lo: usize, hi: usize) -> (res: LibraryPath)
        requires
            lo <= hi <= self@.len(),
        ensures
            res@ == self@.subrange(lo as int, hi as int),
    {
        proof {
            use_type_invariant(self);
        }
        let mut names: Vec<Vec<u8>> = Vec::new();
        let mut i: usize = lo;
        assert(byte_views(names@) =~= self@.subrange(lo as int, lo as int));
        while i < hi
            invariant
                lo <= i <= hi <= self@.len(),
                byte_views(names@) == self@.subrange(lo as int, i as int),
            decreases hi - i,
        {
            let ghost before = byte_views(names@);
            names.push(copy_of(self.names[i].as_slice()));
            i += 1;
            assert(byte_views(names@) =~= before.push(self@[i - 1]));
            assert(self@.subrange(lo as int, i as int) =~= before.push(self@[i - 1]));
        }
        assert(ordinary(byte_views(names@)));
        LibraryPath { names }
    }

    /// Whether two paths have the same names.
    pub fn equals(&self, other: &LibraryPath) -> (res: bool)
        ensures
            res == (self@ == other@),
    {
        if self.names.len() != other.names.len() {
            return false;
        }
        let mut i: usize = 0;
        while i < self.names.len()
            invariant
                i <= self@.len(),
                self@.len() == other@.len(),
                forall|j: int| 0 <= j < i ==> self@[j] == other@[j],
            decreases self@.len() - i,
        {
            if !bytes_eq(self.names[i].as_slice(), other.names[i].as_slice()) {
                assert(self@[i as int] != other@[i as int]);
                return false;
            }
            i += 1;
        }
        assert(self@ =~= other@);
        true
    }

    /// Whether this path comes before the other in the order of paths.
    pub fn precedes(&self, other: &LibraryPath) -> (res: bool)
        ensures
            res == path_before(self@, other@),
    {
        let mut i: usize = 0;
        while i < self.names.len() && i < other.names.len() && bytes_eq(
            self.names[i].as_slice(),
            other.names[i].as_slice(),
        )
            invariant
                i <= self@.len(),
                i <= other@.len(),
                forall|j: int| 0 <= j < i ==> self@[j] == other@[j],
            decreases self@.len() - i,
        {
            i += 1;
        }
        proof {
            lemma_bytes_strict_total();
            lemma_lex_skip(self@, other@, bytes_lt(), i as int);
        }
        if i == other.names.len() {
            false
        } else if i == self.names.len() {
            true
        } else {
            let ghost x = self@[i as int];
            let ghost y = other@[i as int];
            assert(x != y);
            assert(bytes_lt()(x, y) == bytes_before(x, y));
            assert(bytes_lt()(y, x) == bytes_before(y, x));
            bytes_precede(self.names[i].as_slice(), other.names[i].as_slice())
        }
    }

    /// The directory that holds this path; the root has none.
    pub fn parent(&self) -> (res: Option<LibraryPath>)
        ensures
            res is Some <==> self@.len() > 0,
            res matches Some(path) ==> path@ == self@.drop_last(),
    {
        if self.names.len() == 0 {
            None
        } else {
            assert(self@.take(self@.len() - 1) =~= self@.drop_last());
            Some(self.first_names(self.names.len() - 1))
        }
    }

    /// The last name.
    pub fn file_name(&self) -> (res: Option<&[u8]>)
        ensures
            res is Some <==> self@.len() > 0,
            res matches Some(name) ==> name@ == self@.last(),
    {
        if self.names.len() == 0 {
            None
        } else {
            Some(self.names[self.names.len() - 1].as_slice())
        }
    }

    /// The last name without its extension.
    pub fn file_stem(&self) -> (res: Option<&[u8]>)
        ensures
            res is Some <==> self@.len() > 0,
            res matches Some(stem) ==> stem@ == stem_of(self@.last()),
    {
        match self.file_name() {
            Some(name) => Some(split_name(name).0),
            None => None,
        }
    }

    /// The extension of the last name.
    pub fn extension(&self) -> (res: Option<&[u8]>)
        ensures
            res is Some <==> path_extension(self@) is Some,
            res matches Some(extension) ==> Some(extension@) == path_extension(self@),
    {
        proof {
            use_type_invariant(self);
            assert(self@.len() > 0 ==> ordinary_name(self@[self@.len() - 1]));
        }
        match self.file_name() {
            Some(name) => split_name(name).1,
            None => None,
        }
    }

    /// Whether a name of this path holds a NUL.
    pub fn holds_nul(&self) -> (res: bool)
        ensures
            res == !no_nul(self@),
    {
        let mut i: usize = 0;
        while i < self.names.len()
            invariant
                i <= self@.len(),
                forall|j: int| 0 <= j < i ==> !(#[trigger] self@[j]).contains(0),
            decreases self@.len() - i,
        {
            let name: &[u8] = self.name(i);
            let mut k: usize = 0;
            while k < name.len()
                invariant
                    i < self@.len(),
                    name@ == self@[i as int],
                    k <= name@.len(),
                    forall|j: int| 0 <= j < k ==> name@[j] != 0,
                decreases name@.len() - k,
            {
                if name[k] == 0 {
                    assert(self@[i as int].contains(0));
                    return true;
                }
                k += 1;
            }
            i += 1;
        }
        false
    }

    /// Whether this path lies at or beneath `base`.
    pub fn starts_with(&self, base: &LibraryPath) -> (res: bool)
        ensures
            res == lies_beneath(self@, base@),
    {
        if self.names.len() < base.names.len() {
            return false;
        }
        let mut i: usize = 0;
        while i < base.names.len()
            invariant
                i <= base@.len() <= self@.len(),
                forall|j: int| 0 <= j < i ==> self@[j] == base@[j],
            decreases base@.len() - i,
        {
            if !bytes_eq(self.names[i].as_slice(), base.names[i].as_slice()) {
                assert(self@.take(base@.len() as int)[i as int] != base@[i as int]);
                return false;
            }
            i += 1;
        }
        assert(self@.take(base@.len() as int) =~= base@);
        true
    }

    /// This path as seen from `base`; unchanged where it does not lie beneath `base`.
    pub fn relative_to(&self, base: &LibraryPath) -> (res: LibraryPath)
        ensures
            res@ == relative_to(self@, base@),
    {
        if self.starts_with(base) {
            assert(self@.subrange(base@.len() as int, self@.len() as int) =~= self@.skip(
                base@.len() as int,
            ));
            self.names_between(base.names.len(), self.names.len())
        } else {
            self.clone()
        }
    }

    /// This path with one more name.
    pub fn child(&self, name: &[u8]) -> (res: LibraryPath)
        requires
            ordinary_name(name@),
        ensures
            res@ == self@.push(name@),
    {
        proof {
            use_type_invariant(self);
        }
        let mut names: Vec<Vec<u8>> = Vec::new();
        let mut i: usize = 0;
        assert(byte_views(names@) =~= self@.take(0));
        while i < self.names.len()
            invariant
                i <= self@.len(),
                byte_views(names@) == self@.take(i as int),
            decreases self@.len() - i,
        {
            let ghost before = byte_views(names@);
            names.push(copy_of(self.names[i].as_slice()));
            i += 1;
            assert(byte_views(names@) =~= before.push(self@[i - 1]));
            assert(self@.take(i as int) =~= before.push(self@[i - 1]));
        }
        assert(self@.take(i as int) =~= self@);
        names.push(copy_of(name));
        assert(byte_views(names@) =~= self@.push(name@));
        assert(ordinary(byte_views(names@)));
        LibraryPath { names }
    }

    /// The written form, with slashes between the names.
    pub fn to_bytes(&self) -> (res: Vec<u8>)
        ensures
            res@ == written(self@),
    {
        let mut res: Vec<u8> = Vec::new();
        let mut i: usize = 0;
        assert(self@.take(0) =~= Seq::<Seq<u8>>::empty());
        while i < self.names.len()
            invariant
                i <= self@.len(),
                res@ == written(self@.take(i as int)),
            decreases self@.len() - i,
        {
            let ghost next = self@.take(i + 1);
            assert(next.drop_last() =~= self@.take(i as int));
            assert(next.last() == self@[i as int]);
            if i > 0 {
                res.push(47);
            }
            let ghost before = res@;
            let name: &Vec<u8> = &self.names[i];
            let mut j: usize = 0;
            while j < name.len()
                invariant
                    j <= name@.len(),
                    res@ == before + name@.take(j as int),
                decreases name@.len() - j,
            {
                res.push(name[j]);
                j += 1;
                assert(name@.take(j as int) =~= name@.take(j - 1).push(name@[j - 1]));
            }
            assert(name@.take(j as int) =~= name@);
            i += 1;
        }
        assert(self@.take(i as int) =~= self@);
        res
    }

    /// The text to show for this path.
    pub fn to_text(&self) -> (res: String)
        ensures
            res@ == shown(written(self@)),
    {
        let bytes: Vec<u8> = self.to_bytes();
        show(bytes.as_slice())
    }

    /// Whether the written form is UTF-8.
    pub fn is_utf8(&self) -> (res: bool)
        ensures
            res == valid_utf8(written(self@)),
    {
        let bytes: Vec<u8> = self.to_bytes();
        text_from_utf8(bytes.as_slice()).is_some()
    }
}

/// The extension of the last name of a path. A step to the parent directory is no name.
pub open spec fn path_extension(path: Seq<Seq<u8>>) -> Option<Seq<u8>> {
    if path.len() == 0 || path.last() == above() {
        None
    } else {
        extension_of(path.last())
    }
}

impl Clone for LibraryPath {
    fn clone(&self) -> (res: LibraryPath)
        ensures
            res@ == self@,
    {
        assert(self@.take(self@.len() as int) =~= self@);
        self.first_names(self.names.len())
    }
}

} // verus!
