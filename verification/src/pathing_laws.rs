//! What holds of addresses: a path written in a URL is read back as the same path.

use vstd::prelude::*;
use vstd::utf8::{encode_utf8, is_ascii_chars, valid_utf8};
use crate::pathing::{
    asset_address, document_address, encoded_byte, encoded_path, hex_digit, hex_value,
    missing_address, must_encode, normalized, percent_decoded, percent_encoded, url_names, walked,
    APP_PREFIX,
};
use crate::paths::{
    above, components, here, is_slash, no_nul, ordinary, ordinary_name, slash, written,
};
use crate::text::{is_field, lemma_joined_fields};

verus! {

/// Whether every name of a path is UTF-8.
pub open spec fn utf8_names(path: Seq<Seq<u8>>) -> bool {
    forall|i: int| 0 <= i < path.len() ==> valid_utf8(#[trigger] path[i])
}

/// The encoding of two texts after one another is their encodings after one another.
pub proof fn lemma_encode_concat(a: Seq<char>, b: Seq<char>)
    ensures
        encode_utf8(a + b) == encode_utf8(a) + encode_utf8(b),
    decreases a.len(),
{
    if a.len() == 0 {
        assert(a + b =~= b);
        assert(encode_utf8(a) + encode_utf8(b) =~= encode_utf8(b));
    } else {
        lemma_encode_concat(a.drop_first(), b);
        assert((a + b).drop_first() =~= a.drop_first() + b);
        assert((a + b)[0] == a[0]);
        assert(encode_utf8(a + b) =~= encode_utf8(a) + encode_utf8(b));
    }
}

/// The encoding of ASCII text is its characters as bytes.
proof fn lemma_encode_ascii(s: Seq<char>)
    requires
        is_ascii_chars(s),
    ensures
        encode_utf8(s) == Seq::new(s.len(), |i: int| s[i] as u8),
{
    vstd::utf8::is_ascii_chars_encode_utf8(s);
    assert(encode_utf8(s) =~= Seq::new(s.len(), |i: int| s[i] as u8));
}

proof fn lemma_hex(n: int)
    requires
        0 <= n < 16,
    ensures
        '\0' <= hex_digit(n) <= '\u{7f}',
        hex_value(hex_digit(n) as u8) == Some(n as u8),
{
}

/// One encoded byte, followed by anything, is decoded to that byte first.
proof fn lemma_decode_byte(b: u8, rest: Seq<u8>)
    ensures
        percent_decoded(encode_utf8(encoded_byte(b)) + rest) == seq![b] + percent_decoded(rest),
{
    let e = encoded_byte(b);
    let h = b as int / 16;
    let l = b as int % 16;
    if must_encode(b) {
        lemma_hex(h);
        lemma_hex(l);
        assert(is_ascii_chars(e));
        lemma_encode_ascii(e);
        let coded = encode_utf8(e);
        assert(coded.len() == 3);
        assert(coded[0] == 37);
        assert(coded[1] == hex_digit(h) as u8);
        assert(coded[2] == hex_digit(l) as u8);
        let all = coded + rest;
        assert(all.skip(3) =~= rest);
        assert(all[0] == 37 && all[1] == coded[1] && all[2] == coded[2]);
    } else {
        assert(is_ascii_chars(e));
        lemma_encode_ascii(e);
        let coded = encode_utf8(e);
        assert(coded.len() == 1 && coded[0] == b);
        let all = coded + rest;
        assert(all.drop_first() =~= rest);
        assert(all[0] == b);
    }
}

/// Encoded bytes, followed by anything, are decoded to those bytes first.
proof fn lemma_decode_encoded(bytes: Seq<u8>, rest: Seq<u8>)
    ensures
        percent_decoded(encode_utf8(percent_encoded(bytes)) + rest) == bytes + percent_decoded(rest),
    decreases bytes.len(),
{
    if bytes.len() == 0 {
        assert(encode_utf8(percent_encoded(bytes)) + rest =~= rest);
        assert(bytes + percent_decoded(rest) =~= percent_decoded(rest));
    } else {
        let tail = bytes.drop_first();
        let e = encoded_byte(bytes[0]);
        lemma_encode_concat(e, percent_encoded(tail));
        let more = encode_utf8(percent_encoded(tail)) + rest;
        assert(encode_utf8(percent_encoded(bytes)) + rest =~= encode_utf8(e) + more);
        lemma_decode_byte(bytes[0], more);
        lemma_decode_encoded(tail, rest);
        assert(seq![bytes[0]] + (tail + percent_decoded(rest)) =~= bytes + percent_decoded(rest));
    }
}

/// The encoding of a slash.
proof fn lemma_encode_slash()
    ensures
        encode_utf8(seq!['/']) == seq![slash()],
{
    lemma_encode_ascii(seq!['/']);
    assert(encode_utf8(seq!['/']) =~= seq![slash()]);
}

/// An encoded path, followed by anything, is decoded to the written path first.
pub proof fn lemma_decode_path(path: Seq<Seq<u8>>, rest: Seq<u8>)
    requires
        utf8_names(path),
    ensures
        percent_decoded(encode_utf8(encoded_path(path)) + rest) == written(path) + percent_decoded(
            rest,
        ),
        url_names(path).len() == path.len(),
    decreases path.len(),
{
    if path.len() == 0 {
        assert(encode_utf8(encoded_path(path)) + rest =~= rest);
        assert(written(path) + percent_decoded(rest) =~= percent_decoded(rest));
    } else {
        let before = path.drop_last();
        let name = path.last();
        assert(utf8_names(before)) by {
            assert forall|i: int| 0 <= i < before.len() implies valid_utf8(#[trigger] before[i]) by {
                assert(before[i] == path[i]);
            }
        }
        assert(valid_utf8(path[path.len() - 1]));
        let names = url_names(path);
        let e = percent_encoded(name);
        assert(names.drop_last() =~= url_names(before));
        assert(names.last() == e);
        lemma_decode_path(before, rest);
        if path.len() == 1 {
            assert(url_names(before).len() == 0);
            lemma_decode_encoded(name, rest);
        } else {
            let slash_more = seq![slash()] + (encode_utf8(e) + rest);
            lemma_encode_slash();
            lemma_encode_concat(encoded_path(before) + seq!['/'], e);
            lemma_encode_concat(encoded_path(before), seq!['/']);
            assert(encode_utf8(encoded_path(path)) + rest =~= encode_utf8(encoded_path(before))
                + slash_more);
            lemma_decode_path(before, slash_more);
            assert(slash_more.drop_first() =~= encode_utf8(e) + rest);
            assert(percent_decoded(slash_more) == seq![slash()] + percent_decoded(
                encode_utf8(e) + rest,
            ));
            lemma_decode_encoded(name, rest);
            assert(written(before) + (seq![slash()] + (name + percent_decoded(rest))) =~= written(
                path,
            ) + percent_decoded(rest));
        }
    }
}

/// A written path splits into the names it was written from.
pub proof fn law_written_paths_split_into_their_names(path: Seq<Seq<u8>>)
    requires
        ordinary(path),
    ensures
        components(written(path)) == path,
{
    assert forall|i: int| 0 <= i < path.len() implies is_field(#[trigger] path[i], is_slash()) by {
        assert(ordinary_name(path[i]));
        assert forall|j: int| 0 <= j < path[i].len() implies !is_slash()(#[trigger] path[i][j]) by {
            if path[i][j] == slash() {
                assert(path[i].contains(slash()));
            }
        }
    }
    lemma_joined_fields(path, slash(), is_slash());
}

/// Walking along ordinary names goes down through each.
proof fn lemma_walk_down(from: Seq<Seq<u8>>, path: Seq<Seq<u8>>)
    requires
        ordinary(path),
    ensures
        walked(from, path) == Some(from + path),
    decreases path.len(),
{
    if path.len() == 0 {
        assert(from + path =~= from);
    } else {
        assert(ordinary_name(path[0]));
        let rest = path.drop_first();
        assert(ordinary(rest)) by {
            assert forall|i: int| 0 <= i < rest.len() implies ordinary_name(#[trigger] rest[i]) by {
                assert(rest[i] == path[i + 1]);
            }
        }
        lemma_walk_down(from.push(path[0]), rest);
        assert(from.push(path[0]) + rest =~= from + path);
    }
}

/// A written path is UTF-8 if its names are, holds a NUL only where a name does, and begins with
/// a name.
pub proof fn lemma_written(path: Seq<Seq<u8>>)
    requires
        ordinary(path),
        utf8_names(path),
    ensures
        valid_utf8(written(path)),
        no_nul(path) ==> !written(path).contains(0),
        path.len() > 0 ==> written(path).len() > 0 && written(path)[0] == path[0][0],
    decreases path.len(),
{
    if path.len() > 0 {
        let before = path.drop_last();
        let name = path.last();
        assert(ordinary_name(path[path.len() - 1]));
        assert(valid_utf8(path[path.len() - 1]));
        assert forall|i: int| 0 <= i < before.len() implies ordinary_name(#[trigger] before[i])
            && valid_utf8(before[i]) by {
            assert(before[i] == path[i]);
        }
        lemma_written(before);
        if no_nul(path) {
            assert(!path[path.len() - 1].contains(0));
            assert forall|i: int| 0 <= i < before.len() implies !(#[trigger] before[i]).contains(
                0,
            ) by {
                assert(before[i] == path[i]);
            }
        }
        if path.len() > 1 {
            lemma_encode_slash();
            vstd::utf8::encode_utf8_valid_utf8(seq!['/']);
            vstd::utf8::valid_utf8_concat(written(before), seq![slash()]);
            vstd::utf8::valid_utf8_concat(written(before) + seq![slash()], name);
            assert(before[0] == path[0]);
            assert(written(path) == written(before) + seq![slash()] + name);
            if no_nul(path) && written(path).contains(0) {
                let k = choose|k: int| 0 <= k < written(path).len() && written(path)[k] == 0;
                let n = written(before).len();
                if k < n {
                    assert(written(before)[k] == 0);
                } else if k > n {
                    assert(name[k - n - 1] == 0);
                }
            }
        } else {
            assert(written(path) == name);
        }
    }
}

/// A path written in a URL is read back as the same path: read from any directory, the encoded
/// path leads down from that directory by exactly its names. The names must be UTF-8, as every
/// path of a catalog is, and free of NUL, as every name of a file is.
pub proof fn law_encoded_paths_are_read_back(base: Seq<Seq<u8>>, path: Seq<Seq<u8>>)
    requires
        ordinary(path),
        utf8_names(path),
        no_nul(path),
    ensures
        normalized(base, encoded_path(path)) == Some(base + path),
{
    let rest = Seq::<u8>::empty();
    lemma_decode_path(path, rest);
    assert(encode_utf8(encoded_path(path)) + rest =~= encode_utf8(encoded_path(path)));
    assert(percent_decoded(rest) =~= rest);
    assert(written(path) + rest =~= written(path));
    law_written_paths_split_into_their_names(path);
    lemma_written(path);
    lemma_walk_down(base, path);
    if path.len() > 0 {
        assert(ordinary_name(path[0]));
        if path[0][0] == slash() {
            assert(path[0].contains(slash()));
        }
    }
}

/// A path written in a URL behind a slash is read back as the same path, whatever the directory.
pub proof fn law_rooted_paths_are_read_back(base: Seq<Seq<u8>>, path: Seq<Seq<u8>>)
    requires
        ordinary(path),
        utf8_names(path),
        no_nul(path),
    ensures
        normalized(base, seq!['/'] + encoded_path(path)) == Some(path),
{
    let rest = Seq::<u8>::empty();
    let coded = encode_utf8(encoded_path(path));
    lemma_decode_path(path, rest);
    assert(coded + rest =~= coded);
    assert(percent_decoded(rest) =~= rest);
    assert(written(path) + rest =~= written(path));
    lemma_encode_concat(seq!['/'], encoded_path(path));
    lemma_encode_slash();
    let head = seq![slash()];
    let all = head + coded;
    assert(all[0] == slash());
    assert(all.drop_first() =~= coded);
    let decoded = head + written(path);
    assert(percent_decoded(all) == decoded);
    lemma_written(path);
    vstd::utf8::encode_utf8_valid_utf8(seq!['/']);
    vstd::utf8::valid_utf8_concat(head, written(path));
    if decoded.contains(0) {
        let k = choose|k: int| 0 <= k < decoded.len() && decoded[k] == 0;
        assert(written(path)[k - 1] == 0);
    }
    assert(decoded.drop_first() =~= written(path));
    assert(is_slash()(decoded[0]));
    assert(components(decoded) == components(written(path)));
    law_written_paths_split_into_their_names(path);
    lemma_walk_down(Seq::empty(), path);
    assert(Seq::<Seq<u8>>::empty() + path =~= path);
}

/// The paths of the library have different encoded forms.
proof fn lemma_encoded_paths_differ(a: Seq<Seq<u8>>, b: Seq<Seq<u8>>)
    requires
        ordinary(a),
        ordinary(b),
        utf8_names(a),
        utf8_names(b),
        encoded_path(a) == encoded_path(b),
    ensures
        a == b,
{
    let rest = Seq::<u8>::empty();
    lemma_decode_path(a, rest);
    lemma_decode_path(b, rest);
    assert(percent_decoded(rest) =~= rest);
    assert(written(a) + rest =~= written(a));
    assert(written(b) + rest =~= written(b));
    law_written_paths_split_into_their_names(a);
    law_written_paths_split_into_their_names(b);
}

/// Different paths have different addresses, of each kind.
pub proof fn law_addresses_are_unambiguous(a: Seq<Seq<u8>>, b: Seq<Seq<u8>>)
    requires
        ordinary(a),
        ordinary(b),
        utf8_names(a),
        utf8_names(b),
        a != b,
    ensures
        document_address(a) != document_address(b),
        asset_address(a) != asset_address(b),
        missing_address(a) != missing_address(b),
{
    if encoded_path(a) == encoded_path(b) {
        lemma_encoded_paths_differ(a, b);
    }
    lemma_same_prefix(APP_PREFIX@ + "/doc/"@, encoded_path(a), encoded_path(b));
    lemma_same_prefix(APP_PREFIX@ + "/asset/"@, encoded_path(a), encoded_path(b));
    lemma_same_prefix(APP_PREFIX@ + "/missing/"@, encoded_path(a), encoded_path(b));
}

proof fn lemma_same_prefix(prefix: Seq<char>, a: Seq<char>, b: Seq<char>)
    ensures
        prefix + a == prefix + b ==> a == b,
{
    assert((prefix + a).skip(prefix.len() as int) =~= a);
    assert((prefix + b).skip(prefix.len() as int) =~= b);
}

/// A path that is read never leaves the library: every name in it is ordinary, so no step leads
/// above the root.
pub proof fn law_read_paths_stay_in_the_library(base: Seq<Seq<u8>>, raw: Seq<char>)
    requires
        ordinary(base),
        normalized(base, raw) is Some,
    ensures
        ordinary(normalized(base, raw)->0),
{
    let decoded = percent_decoded(encode_utf8(raw));
    crate::paths::lemma_components(decoded);
    lemma_walk_stays(base, components(decoded));
    lemma_walk_stays(Seq::empty(), components(decoded));
}

proof fn lemma_walk_stays(from: Seq<Seq<u8>>, names: Seq<Seq<u8>>)
    requires
        ordinary(from),
        forall|i: int|
            0 <= i < names.len() ==> (#[trigger] names[i]).len() > 0 && !names[i].contains(slash()),
    ensures
        walked(from, names) matches Some(path) ==> ordinary(path),
    decreases names.len(),
{
    if names.len() > 0 {
        let rest = names.drop_first();
        assert forall|i: int| 0 <= i < rest.len() implies (#[trigger] rest[i]).len() > 0
            && !rest[i].contains(slash()) by {
            assert(rest[i] == names[i + 1]);
        }
        if names[0] == here() {
            lemma_walk_stays(from, rest);
        } else if names[0] == above() {
            if from.len() > 0 {
                lemma_walk_stays(from.drop_last(), rest);
            }
        } else {
            assert(ordinary_name(names[0]));
            lemma_walk_stays(from.push(names[0]), rest);
        }
    }
}

/// A path that begins with a slash is read from the library root, whatever the directory.
pub proof fn law_rooted_paths_ignore_the_directory(
    a: Seq<Seq<u8>>,
    b: Seq<Seq<u8>>,
    raw: Seq<char>,
)
    requires
        raw.len() > 0,
        raw[0] == '/',
    ensures
        normalized(a, raw) == normalized(b, raw),
{
    let head = seq!['/'];
    let rest = raw.drop_first();
    assert(raw =~= head + rest);
    lemma_encode_concat(head, rest);
    lemma_encode_slash();
    let bytes = encode_utf8(raw);
    assert(bytes[0] == slash());
    assert(percent_decoded(bytes)[0] == slash());
}

} // verus!
