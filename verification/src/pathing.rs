//! Paths in addresses: how a path of the library is written in a URL, and how a path in a URL
//! or a link is read back.

use vstd::prelude::*;
use vstd::utf8::{decode_utf8, encode_utf8, valid_utf8};
use crate::paths::{
    above, components, here, is_above, is_here, lemma_components, ordinary, ordinary_name, slash,
    split_components, byte_views, LibraryPath,
};
use crate::text::{copy_of, joined, text_from_utf8};

verus! {

broadcast use vstd::string::group_string_axioms;

/// What every address of the application begins with.
pub const APP_PREFIX: &'static str = "/_mdfolio";

// ---------------------------------------------------------------------------
// Percent-encoding
// ---------------------------------------------------------------------------

/// The bytes that a path in a URL does not show as they are: controls, bytes outside ASCII, and
/// the marks ` "#%<>?[\]^{|}` and the grave accent.
pub open spec fn must_encode(b: u8) -> bool {
    ||| b < 32
    ||| b >= 127
    ||| b == 32
    ||| b == 34
    ||| b == 35
    ||| b == 37
    ||| b == 60
    ||| b == 62
    ||| b == 63
    ||| 91 <= b <= 94
    ||| b == 96
    ||| 123 <= b <= 125
}

/// The upper-case hexadecimal digit of a number below sixteen.
pub open spec fn hex_digit(n: int) -> char {
    if n < 10 {
        (48 + n) as u8 as char
    } else {
        (55 + n) as u8 as char
    }
}

/// The percent-encoding of a byte.
pub open spec fn escape(b: u8) -> Seq<char> {
    seq!['%', hex_digit(b as int / 16), hex_digit(b as int % 16)]
}

/// `percent_encoding::percent_encode_byte`: a percent sign and the two upper-case hexadecimal
/// digits of the byte.
pub assume_specification[ percent_encoding::percent_encode_byte ](byte: u8) -> (res: &'static str)
    ensures
        res@ == escape(byte),
;

/// A byte as it stands in a URL.
pub open spec fn encoded_byte(b: u8) -> Seq<char> {
    if must_encode(b) {
        escape(b)
    } else {
        seq![b as char]
    }
}

/// Bytes as they stand in a URL.
pub open spec fn percent_encoded(bytes: Seq<u8>) -> Seq<char>
    decreases bytes.len(),
{
    if bytes.len() == 0 {
        Seq::empty()
    } else {
        encoded_byte(bytes[0]) + percent_encoded(bytes.drop_first())
    }
}

/// Whether a byte must be encoded.
fn needs_encoding(b: u8) -> (res: bool)
    ensures
        res == must_encode(b),
{
    b < 32 || b >= 127 || b == 32 || b == 34 || b == 35 || b == 37 || b == 60 || b == 62 || b == 63
        || (91 <= b && b <= 94) || b == 96 || (123 <= b && b <= 125)
}

/// The value of a hexadecimal digit.
pub open spec fn hex_value(b: u8) -> Option<u8> {
    if 48 <= b <= 57 {
        Some((b - 48) as u8)
    } else if 65 <= b <= 70 {
        Some((b - 55) as u8)
    } else if 97 <= b <= 102 {
        Some((b - 87) as u8)
    } else {
        None
    }
}

/// Bytes with every percent sign and two hexadecimal digits replaced by the byte they stand for.
/// A percent sign without two digits stands for itself.
pub open spec fn percent_decoded(bytes: Seq<u8>) -> Seq<u8>
    decreases bytes.len(),
{
    if bytes.len() == 0 {
        Seq::empty()
    } else if bytes[0] == 37 && bytes.len() >= 3 && hex_value(bytes[1]) is Some && hex_value(
        bytes[2],
    ) is Some {
        seq![(hex_value(bytes[1])->0 * 16 + hex_value(bytes[2])->0) as u8] + percent_decoded(
            bytes.skip(3),
        )
    } else {
        seq![bytes[0]] + percent_decoded(bytes.drop_first())
    }
}

/// `percent_encoding::percent_decode_str(..).decode_utf8()`: the bytes of the text are
/// percent-decoded, and read as UTF-8 if they are valid UTF-8.
#[verifier::external_body]
pub(crate) fn percent_decode(raw: &str) -> (res: Option<String>)
    ensures
        res is Some <==> valid_utf8(percent_decoded(encode_utf8(raw@))),
        res matches Some(text) ==> text@ == decode_utf8(percent_decoded(encode_utf8(raw@))),
{
    percent_encoding::percent_decode_str(raw).decode_utf8().ok().map(|text| text.into_owned())
}

// ---------------------------------------------------------------------------
// Addresses
// ---------------------------------------------------------------------------

/// The names of a path that are UTF-8, each as it stands in a URL.
pub open spec fn url_names(path: Seq<Seq<u8>>) -> Seq<Seq<char>>
    decreases path.len(),
{
    if path.len() == 0 {
        Seq::empty()
    } else if valid_utf8(path.last()) {
        url_names(path.drop_last()).push(percent_encoded(path.last()))
    } else {
        url_names(path.drop_last())
    }
}

/// A path as it stands in a URL: its UTF-8 names, encoded, with slashes between them.
pub open spec fn encoded_path(path: Seq<Seq<u8>>) -> Seq<char> {
    joined(url_names(path), seq!['/'])
}

proof fn lemma_encoded_is_not_empty(bytes: Seq<u8>)
    requires
        bytes.len() > 0,
    ensures
        percent_encoded(bytes).len() > 0,
{
    assert(encoded_byte(bytes[0]).len() > 0);
}

proof fn lemma_url_names(path: Seq<Seq<u8>>)
    requires
        ordinary(path),
    ensures
        forall|i: int| 0 <= i < url_names(path).len() ==> (#[trigger] url_names(path)[i]).len() > 0,
        encoded_path(path).len() == 0 <==> url_names(path).len() == 0,
    decreases path.len(),
{
    if path.len() > 0 {
        assert(ordinary_name(path.last()));
        lemma_url_names(path.drop_last());
        lemma_encoded_is_not_empty(path.last());
        if valid_utf8(path.last()) {
            let names = url_names(path);
            assert(names.drop_last() =~= url_names(path.drop_last()));
            assert(names.last() == percent_encoded(path.last()));
        }
    }
}

/// A path as it stands in a URL. A name that is not UTF-8 is left out.
#[must_use]
pub fn encode_relative_path(path: &LibraryPath) -> (res: String)
    ensures
        res@ == encoded_path(path@),
{
    proof {
        use_type_invariant(path);
    }
    let mut encoded: String = String::new();
    let mut i: usize = 0;
    assert(path@.take(0) =~= Seq::<Seq<u8>>::empty());
    while i < path.len()
        invariant
            i <= path@.len(),
            ordinary(path@),
            encoded@ == encoded_path(path@.take(i as int)),
        decreases path@.len() - i,
    {
        let name: &[u8] = path.name(i);
        let ghost next = path@.take(i + 1);
        proof {
            assert(next.drop_last() =~= path@.take(i as int));
            assert(next.last() == name@);
            lemma_url_names(path@.take(i as int));
        }
        if text_from_utf8(name).is_some() {
            let ghost names = url_names(next);
            proof {
                assert(names.drop_last() =~= url_names(path@.take(i as int)));
                assert(names.last() == percent_encoded(name@));
            }
            if !encoded.as_str().is_empty() {
                encoded.push('/');
            }
            let ghost before = encoded@;
            let mut j: usize = 0;
            assert(name@.skip(0) =~= name@);
            while j < name.len()
                invariant
                    j <= name@.len(),
                    before + percent_encoded(name@) =~= encoded@ + percent_encoded(
                        name@.skip(j as int),
                    ),
                decreases name@.len() - j,
            {
                let b: u8 = name[j];
                assert(name@.skip(j as int).drop_first() =~= name@.skip(j + 1));
                if needs_encoding(b) {
                    encoded.append(percent_encoding::percent_encode_byte(b));
                } else {
                    encoded.push(b as char);
                }
                j += 1;
            }
            assert(name@.skip(j as int) =~= Seq::empty());
            assert(encoded@ =~= before + percent_encoded(name@));
        }
        i += 1;
    }
    assert(path@.take(i as int) =~= path@);
    encoded
}

/// The address of a document.
pub open spec fn document_address(path: Seq<Seq<u8>>) -> Seq<char> {
    APP_PREFIX@ + "/doc/"@ + encoded_path(path)
}

/// The address of an image or an attachment.
pub open spec fn asset_address(path: Seq<Seq<u8>>) -> Seq<char> {
    APP_PREFIX@ + "/asset/"@ + encoded_path(path)
}

/// The address that stands for a target that is not there.
pub open spec fn missing_address(path: Seq<Seq<u8>>) -> Seq<char> {
    APP_PREFIX@ + "/missing/"@ + encoded_path(path)
}

/// The URL of a document.
#[must_use]
pub fn document_url(relative_path: &LibraryPath) -> (res: String)
    ensures
        res@ == document_address(relative_path@),
{
    APP_PREFIX.to_owned().concat("/doc/").concat(encode_relative_path(relative_path).as_str())
}

/// The URL of an image or an attachment.
#[must_use]
pub fn asset_url(relative_path: &LibraryPath) -> (res: String)
    ensures
        res@ == asset_address(relative_path@),
{
    APP_PREFIX.to_owned().concat("/asset/").concat(encode_relative_path(relative_path).as_str())
}

/// The URL that reports a missing target, and finds it once it is there.
#[must_use]
pub fn missing_url(target: &LibraryPath) -> (res: String)
    ensures
        res@ == missing_address(target@),
{
    APP_PREFIX.to_owned().concat("/missing/").concat(encode_relative_path(target).as_str())
}

// ---------------------------------------------------------------------------
// Reading a path
// ---------------------------------------------------------------------------

/// Where a walk along `names` leads from `from`: `.` stays, `..` goes up, any other name goes
/// down. A step above the library root leads nowhere.
pub open spec fn walked(from: Seq<Seq<u8>>, names: Seq<Seq<u8>>) -> Option<Seq<Seq<u8>>>
    decreases names.len(),
{
    if names.len() == 0 {
        Some(from)
    } else if names[0] == here() {
        walked(from, names.drop_first())
    } else if names[0] == above() {
        if from.len() == 0 {
            None
        } else {
            walked(from.drop_last(), names.drop_first())
        }
    } else {
        walked(from.push(names[0]), names.drop_first())
    }
}

/// The path that decoded bytes stand for: from the library root if they begin with a slash, else
/// from `base`.
pub open spec fn resolved(base: Seq<Seq<u8>>, decoded: Seq<u8>) -> Option<Seq<Seq<u8>>> {
    if !valid_utf8(decoded) || decoded.contains(0) {
        None
    } else if decoded.len() > 0 && decoded[0] == slash() {
        walked(Seq::empty(), components(decoded))
    } else {
        walked(base, components(decoded))
    }
}

/// The path of the library that a path in a URL or a link stands for.
pub open spec fn normalized(base: Seq<Seq<u8>>, raw: Seq<char>) -> Option<Seq<Seq<u8>>> {
    resolved(base, percent_decoded(encode_utf8(raw)))
}

/// The path of the library that a path in a URL or a link stands for, seen from
/// `base_directory`. A path that is not UTF-8 when decoded, that holds a NUL, or that leaves the
/// library stands for none.
pub fn normalize_library_path(base_directory: &LibraryPath, raw: &str) -> (res: Option<LibraryPath>)
    ensures
        res is Some <==> normalized(base_directory@, raw@) is Some,
        res matches Some(path) ==> Some(path@) == normalized(base_directory@, raw@),
{
    proof {
        use_type_invariant(base_directory);
    }
    let ghost coded = percent_decoded(encode_utf8(raw@));
    let decoded: String = match percent_decode(raw) {
        Some(decoded) => decoded,
        None => {
            return None;
        },
    };
    let bytes: &[u8] = decoded.as_str().as_bytes();
    proof {
        vstd::utf8::decode_utf8_encode_utf8(coded);
        assert(bytes@ == coded);
    }
    let mut i: usize = 0;
    while i < bytes.len()
        invariant
            i <= bytes@.len(),
            bytes@ == coded,
            valid_utf8(coded),
            coded == percent_decoded(encode_utf8(raw@)),
            forall|j: int| 0 <= j < i ==> bytes@[j] != 0,
        decreases bytes@.len() - i,
    {
        if bytes[i] == 0 {
            assert(bytes@.contains(0));
            return None;
        }
        i += 1;
    }
    assert(!coded.contains(0));
    let mut names: Vec<Vec<u8>> = Vec::new();
    assert(byte_views(names@) =~= Seq::<Seq<u8>>::empty());
    if !(bytes.len() > 0 && bytes[0] == 47) {
        let mut k: usize = 0;
        assert(base_directory@.take(0) =~= Seq::<Seq<u8>>::empty());
        while k < base_directory.len()
            invariant
                k <= base_directory@.len(),
                byte_views(names@) == base_directory@.take(k as int),
            decreases base_directory@.len() - k,
        {
            let ghost before = byte_views(names@);
            names.push(copy_of(base_directory.name(k)));
            k += 1;
            assert(byte_views(names@) =~= before.push(base_directory@[k - 1]));
            assert(base_directory@.take(k as int) =~= before.push(base_directory@[k - 1]));
        }
        assert(base_directory@.take(k as int) =~= base_directory@);
    }
    let parts: Vec<Vec<u8>> = split_components(bytes);
    let ghost all = components(coded);
    let ghost start = byte_views(names@);
    proof {
        lemma_components(coded);
        assert(all.skip(0) =~= all);
    }
    let mut p: usize = 0;
    while p < parts.len()
        invariant
            p <= parts@.len(),
            byte_views(parts@) == all,
            all == components(coded),
            forall|j: int|
                0 <= j < all.len() ==> (#[trigger] all[j]).len() > 0 && !all[j].contains(slash()),
            ordinary(byte_views(names@)),
            walked(start, all) == walked(byte_views(names@), all.skip(p as int)),
            normalized(base_directory@, raw@) == walked(start, all),
        decreases parts@.len() - p,
    {
        let part: &Vec<u8> = &parts[p];
        let ghost from = byte_views(names@);
        let ghost rest = all.skip(p as int);
        assert(part@ == all[p as int]);
        assert(rest[0] == part@);
        assert(rest.drop_first() =~= all.skip(p + 1));
        if is_here(part.as_slice()) {
        } else if is_above(part.as_slice()) {
            if names.len() == 0 {
                return None;
            }
            names.pop();
            assert(byte_views(names@) =~= from.drop_last());
        } else {
            names.push(copy_of(part.as_slice()));
            assert(byte_views(names@) =~= from.push(part@));
            assert(ordinary_name(part@));
        }
        p += 1;
    }
    assert(all.skip(p as int) =~= Seq::<Seq<u8>>::empty());
    LibraryPath::from_names(names)
}

} // verus!
