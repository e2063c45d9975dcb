//! What holds of paths within a library, of the order of names and text, and of what is written in
//! URLs.

use vstd::prelude::*;
use vstd::utf8::{decode_utf8, encode_utf8, valid_utf8};
use crate::catalog::{coherent, CatalogView};
use crate::order::text_before;
use crate::pathing::{normalized, percent_decoded};
use crate::pathing_laws::lemma_encode_concat;
use crate::paths::{
    above, components, here, lies_beneath, ordinary, ordinary_name, parsed, path_before,
    relative_to, slash, written,
};
use crate::places_laws::lemma_ordinary_names;
use crate::text::{bytes_before, byte_lt, bytes_lt, lower_text};
use crate::word_laws::lemma_ascii_bytes;

verus! {

// ---------------------------------------------------------------------------
// Within a library
// ---------------------------------------------------------------------------

/// A path lies beneath another exactly where it goes on from it, and is seen from there as what it
/// goes on with. From elsewhere it is seen as it is.
pub proof fn law_paths_go_on(base: Seq<Seq<u8>>, rest: Seq<Seq<u8>>, path: Seq<Seq<u8>>)
    ensures
        lies_beneath(base + rest, base),
        relative_to(base + rest, base) == rest,
        lies_beneath(path, base) ==> path == base + relative_to(path, base),
        !lies_beneath(path, base) ==> relative_to(path, base) == path,
{
    let all = base + rest;
    assert(all.take(base.len() as int) =~= base);
    assert(all.skip(base.len() as int) =~= rest);
    if lies_beneath(path, base) {
        assert(path =~= path.take(base.len() as int) + path.skip(base.len() as int));
    }
}

/// A written path is read as its names. A step to where it stands is passed over; a path that begins
/// with a slash, or that goes up, is none of the library.
pub proof fn law_written_paths_are_read(path: Seq<Seq<u8>>, a: Seq<u8>, b: Seq<u8>)
    requires
        ordinary(path),
    ensures
        parsed(written(path)) == Some(path),
        parsed(seq![47u8] + a) is None,
        components(a).contains(seq![46u8, 46u8]) ==> parsed(a) is None,
        parsed(a + seq![47u8] + b) is Some ==> parsed(a) is Some,
        parsed(a) is Some && a.len() > 0 && components(b) == seq![seq![46u8]] ==> parsed(
            a + seq![47u8] + b,
        ) == parsed(a),
{
    lemma_ordinary_names(path);
    let w = written(path);
    assert(above() =~= seq![46u8, 46u8]);
    assert(here() =~= seq![46u8]);
    if path.contains(above()) {
        let i = choose|i: int| 0 <= i < path.len() && path[i] == above();
        assert(ordinary_name(path[i]));
    }
    assert((seq![47u8] + a)[0] == slash());
    let all = a + seq![slash()] + b;
    crate::text::lemma_fields_at_separator(a, slash(), b, crate::paths::is_slash());
    if a.len() > 0 {
        assert(all[0] == a[0]);
    }
    if components(a).contains(above()) {
        let i = choose|i: int| 0 <= i < components(a).len() && components(a)[i] == above();
        assert(components(all)[i] == above());
    }
    if parsed(a) is Some && components(b) == seq![here()] && a.len() > 0 {
        let other = |name: Seq<u8>| name != here();
        assert(components(all) =~= components(a).push(here()));
        components(a).lemma_filter_push(here(), other);
        if components(all).contains(above()) {
            let i = choose|i: int| 0 <= i < components(all).len() && components(all)[i] == above();
            assert(components(a)[i] == above());
        }
    }
}

// ---------------------------------------------------------------------------
// Order
// ---------------------------------------------------------------------------

/// Whether one byte string comes before another, like words in a dictionary: at the first place
/// where they differ it has the smaller byte, or it ends there.
pub open spec fn bytes_first(a: Seq<u8>, b: Seq<u8>) -> bool {
    exists|k: int| #[trigger] parts_at(a, b, k) && k < b.len() && (k == a.len() || a[k] < b[k])
}

/// Whether two byte strings are the same up to a place.
pub open spec fn parts_at(a: Seq<u8>, b: Seq<u8>, k: int) -> bool {
    0 <= k <= a.len() && k <= b.len() && forall|i: int| 0 <= i < k ==> #[trigger] a[i] == b[i]
}

/// Byte strings are ordered like words in a dictionary.
pub proof fn law_bytes_are_ordered_like_words(a: Seq<u8>, b: Seq<u8>)
    ensures
        bytes_before(a, b) <==> bytes_first(a, b),
    decreases a.len(),
{
    if b.len() == 0 {
    } else if a.len() == 0 {
        assert(parts_at(a, b, 0));
    } else if a[0] != b[0] {
        assert(parts_at(a, b, 0));
        if bytes_first(a, b) {
            let k = choose|k: int| #[trigger]
                parts_at(a, b, k) && k < b.len() && (k == a.len() || a[k] < b[k]);
            if k > 0 {
                assert(a[0] == b[0]);
            }
        }
    } else {
        let x = a.drop_first();
        let y = b.drop_first();
        law_bytes_are_ordered_like_words(x, y);
        if bytes_first(x, y) {
            let k = choose|k: int| #[trigger]
                parts_at(x, y, k) && k < y.len() && (k == x.len() || x[k] < y[k]);
            assert(parts_at(a, b, k + 1)) by {
                assert forall|i: int| 0 <= i < k + 1 implies #[trigger] a[i] == b[i] by {
                    if i > 0 {
                        assert(x[i - 1] == y[i - 1]);
                    }
                }
            }
        }
        if bytes_first(a, b) {
            let k = choose|k: int| #[trigger]
                parts_at(a, b, k) && k < b.len() && (k == a.len() || a[k] < b[k]);
            assert(k > 0);
            assert(parts_at(x, y, k - 1)) by {
                assert forall|i: int| 0 <= i < k - 1 implies #[trigger] x[i] == y[i] by {
                    assert(a[i + 1] == b[i + 1]);
                }
            }
        }
    }
}

/// Text is ordered by its bytes, so by the first letter that differs; text that ends comes before
/// text that goes on.
pub proof fn law_text_is_ordered_like_words(
    start: Seq<char>,
    a: char,
    b: char,
    x: Seq<char>,
    y: Seq<char>,
)
    requires
        a < b <= '\u{7f}',
    ensures
        text_before(start + seq![a] + x, start + seq![b] + y),
        !text_before(start + seq![b] + y, start + seq![a] + x),
        text_before(start, start + seq![b] + y),
        !text_before(start + seq![b] + y, start),
        forall|s: Seq<char>, t: Seq<char>| #[trigger]
            text_before(s, t) == bytes_first(encode_utf8(s), encode_utf8(t)),
{
    let s = encode_utf8(start);
    let p = s + seq![a as u8] + encode_utf8(x);
    let q = s + seq![b as u8] + encode_utf8(y);
    lemma_one_letter(start, a, x);
    lemma_one_letter(start, b, y);
    let n = s.len() as int;
    assert(p[n] == a as u8 && q[n] == b as u8);
    assert(parts_at(p, q, n));
    assert(parts_at(s, q, n));
    law_bytes_are_ordered_like_words(p, q);
    law_bytes_are_ordered_like_words(q, p);
    law_bytes_are_ordered_like_words(s, q);
    law_bytes_are_ordered_like_words(q, s);
    if bytes_first(q, p) {
        let k = choose|k: int| #[trigger]
            parts_at(q, p, k) && k < p.len() && (k == q.len() || q[k] < p[k]);
        if k > n {
            assert(q[n] == p[n]);
        } else if k < n {
            assert(q[k] == s[k] && p[k] == s[k]);
        }
    }
    if bytes_first(q, s) {
        let k = choose|k: int| #[trigger]
            parts_at(q, s, k) && k < s.len() && (k == q.len() || q[k] < s[k]);
        assert(q[k] == s[k]);
    }
    assert forall|s: Seq<char>, t: Seq<char>| #[trigger]
        text_before(s, t) == bytes_first(encode_utf8(s), encode_utf8(t)) by {
        law_bytes_are_ordered_like_words(encode_utf8(s), encode_utf8(t));
    }
}

proof fn lemma_one_letter(start: Seq<char>, c: char, rest: Seq<char>)
    requires
        c <= '\u{7f}',
    ensures
        encode_utf8(start + seq![c] + rest) == encode_utf8(start) + seq![c as u8] + encode_utf8(
            rest,
        ),
{
    lemma_encode_concat(start + seq![c], rest);
    lemma_encode_concat(start, seq![c]);
    lemma_ascii_bytes(seq![c]);
    assert(encode_utf8(seq![c]) =~= seq![c as u8]);
}

/// Whether one path comes before another: at the first name that differs it has the name that comes
/// first, or it ends there.
pub open spec fn names_first(a: Seq<Seq<u8>>, b: Seq<Seq<u8>>) -> bool {
    exists|k: int| #[trigger]
        names_part_at(a, b, k) && k < b.len() && (k == a.len() || bytes_first(a[k], b[k]))
}

/// Whether two paths are the same up to a name.
pub open spec fn names_part_at(a: Seq<Seq<u8>>, b: Seq<Seq<u8>>, k: int) -> bool {
    0 <= k <= a.len() && k <= b.len() && forall|i: int| 0 <= i < k ==> #[trigger] a[i] == b[i]
}

proof fn lemma_names_first(a: Seq<Seq<u8>>, b: Seq<Seq<u8>>)
    requires
        path_before(a, b),
    ensures
        names_first(a, b),
    decreases a.len(),
{
    if a.len() == 0 {
        assert(names_part_at(a, b, 0));
    } else {
        law_bytes_are_ordered_like_words(a[0], b[0]);
        law_bytes_are_ordered_like_words(b[0], a[0]);
        if bytes_lt()(a[0], b[0]) {
            assert(names_part_at(a, b, 0));
        } else {
            crate::text::lemma_lex_total(a[0], b[0], byte_lt());
            let x = a.drop_first();
            let y = b.drop_first();
            lemma_names_first(x, y);
            let k = choose|k: int| #[trigger]
                names_part_at(x, y, k) && k < y.len() && (k == x.len() || bytes_first(x[k], y[k]));
            assert(names_part_at(a, b, k + 1)) by {
                assert forall|i: int| 0 <= i < k + 1 implies #[trigger] a[i] == b[i] by {
                    if i > 0 {
                        assert(x[i - 1] == y[i - 1]);
                    }
                }
            }
            if k < x.len() {
                assert(x[k] == a[k + 1] && y[k] == b[k + 1]);
            }
        }
    }
}

/// The repositories of a library stand in the order of their roots.
pub proof fn law_repositories_stand_in_order(c: CatalogView, q: int, r: int)
    requires
        coherent(c),
        0 <= q < r < c.repositories.len(),
    ensures
        names_first(c.repositories[q].root, c.repositories[r].root),
{
    lemma_names_first(c.repositories[q].root, c.repositories[r].root);
}

/// The documents of a library stand in the order of their paths, as text in lower case.
pub proof fn law_documents_stand_in_order(c: CatalogView, d: int, e: int)
    requires
        coherent(c),
        0 <= d < e < c.documents.len(),
    ensures
        !bytes_first(
            encode_utf8(lower_text(decode_utf8(written(c.documents[e].path)))),
            encode_utf8(lower_text(decode_utf8(written(c.documents[d].path)))),
        ),
{
    assert(c.documents[d].id == d);
    assert(c.documents[e].id == e);
    law_bytes_are_ordered_like_words(
        encode_utf8(lower_text(decode_utf8(written(c.documents[e].path)))),
        encode_utf8(lower_text(decode_utf8(written(c.documents[d].path)))),
    );
}

// ---------------------------------------------------------------------------
// What is written in URLs
// ---------------------------------------------------------------------------

/// Whether a byte is a hexadecimal digit, in either case, for a number below sixteen.
pub open spec fn digit_for(b: u8, n: int) -> bool {
    ||| 0 <= n < 10 && b == 48 + n
    ||| 10 <= n < 16 && (b == 65 + (n - 10) || b == 97 + (n - 10))
}

/// A percent sign and two hexadecimal digits, in either case, stand for a byte; a percent sign
/// without two of them and any other byte stand for themselves.
pub proof fn law_escapes_stand_for_bytes(h: u8, l: u8, high: int, low: int, b: u8, rest: Seq<u8>)
    ensures
        digit_for(h, high) && digit_for(l, low) ==> percent_decoded(seq![37u8, h, l] + rest) == seq![
            (16 * high + low) as u8,
        ] + percent_decoded(rest),
        b != 37 ==> percent_decoded(seq![b] + rest) == seq![b] + percent_decoded(rest),
        rest.len() < 2 || (forall|n: int| !#[trigger] digit_for(rest[0], n)) || (forall|n: int|
            !#[trigger] digit_for(rest[1], n)) ==> percent_decoded(seq![37u8] + rest) == seq![37u8]
            + percent_decoded(rest),
        percent_decoded(Seq::empty()).len() == 0,
{
    let one = seq![b] + rest;
    assert(one[0] == b);
    assert(one.drop_first() =~= rest);
    let three = seq![37u8, h, l] + rest;
    assert(three[0] == 37 && three[1] == h && three[2] == l);
    assert(three.skip(3) =~= rest);
    let sign = seq![37u8] + rest;
    assert(sign[0] == 37);
    assert(sign.drop_first() =~= rest);
    if rest.len() >= 2 {
        assert(sign[1] == rest[0] && sign[2] == rest[1]);
        lemma_digit(rest[0]);
        lemma_digit(rest[1]);
    }
}

proof fn lemma_digit(b: u8)
    ensures
        crate::pathing::hex_value(b) is Some ==> exists|n: int| #[trigger] digit_for(b, n),
{
    if 48 <= b <= 57 {
        assert(digit_for(b, b - 48));
    } else if 65 <= b <= 70 {
        assert(digit_for(b, b - 55));
    } else if 97 <= b <= 102 {
        assert(digit_for(b, b - 87));
    }
}

/// What is not UTF-8 when decoded, or holds a NUL, is no path.
pub proof fn law_other_bytes_are_no_path(base: Seq<Seq<u8>>, raw: Seq<char>, i: int)
    ensures
        !valid_utf8(percent_decoded(encode_utf8(raw))) ==> normalized(base, raw) is None,
        0 <= i < percent_decoded(encode_utf8(raw)).len() && percent_decoded(encode_utf8(raw))[i] == 0
            ==> normalized(base, raw) is None,
{
}

} // verus!
