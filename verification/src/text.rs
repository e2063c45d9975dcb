//! Sequences of characters and bytes, and the operations the reader needs on them.

use vstd::prelude::*;
use vstd::utf8::{decode_utf8, encode_utf8, valid_utf8};

verus! {

broadcast use vstd::string::group_string_axioms;

/// `String::push` appends one character.
pub assume_specification[ String::push ](s: &mut String, ch: char)
    ensures
        final(s)@ == old(s)@.push(ch),
;

// ---------------------------------------------------------------------------
// Runs and fields
// ---------------------------------------------------------------------------

/// The number of leading items that satisfy `p`.
pub open spec fn run<T>(s: Seq<T>, p: spec_fn(T) -> bool) -> nat
    decreases s.len(),
{
    if s.len() == 0 || !p(s[0]) {
        0
    } else {
        1 + run(s.drop_first(), p)
    }
}

/// The number of items before the first that satisfies `p`; all of them if none does.
pub open spec fn until<T>(s: Seq<T>, p: spec_fn(T) -> bool) -> nat
    decreases s.len(),
{
    if s.len() == 0 || p(s[0]) {
        0
    } else {
        1 + until(s.drop_first(), p)
    }
}

/// What `run` counts: every item before the end of the run satisfies `p`, the next one does not.
pub proof fn lemma_run<T>(s: Seq<T>, p: spec_fn(T) -> bool)
    ensures
        run(s, p) <= s.len(),
        forall|i: int| 0 <= i < run(s, p) ==> p(#[trigger] s[i]),
        run(s, p) < s.len() ==> !p(s[run(s, p) as int]),
    decreases s.len(),
{
    if s.len() > 0 && p(s[0]) {
        let t = s.drop_first();
        lemma_run(t, p);
        assert forall|i: int| 0 <= i < run(s, p) implies p(#[trigger] s[i]) by {
            if i > 0 {
                assert(t[i - 1] == s[i]);
            }
        }
    }
}

/// A count with the properties of a run is the run.
pub proof fn lemma_run_is<T>(s: Seq<T>, p: spec_fn(T) -> bool, k: nat)
    requires
        k <= s.len(),
        forall|i: int| 0 <= i < k ==> p(#[trigger] s[i]),
        k < s.len() ==> !p(s[k as int]),
    ensures
        run(s, p) == k,
{
    lemma_run(s, p);
    let r = run(s, p);
    if r < k {
        assert(p(s[r as int]));
    }
    if k < r {
        assert(p(s[k as int]));
    }
}

/// What `until` counts.
pub proof fn lemma_until<T>(s: Seq<T>, p: spec_fn(T) -> bool)
    ensures
        until(s, p) <= s.len(),
        forall|i: int| 0 <= i < until(s, p) ==> !p(#[trigger] s[i]),
        until(s, p) < s.len() ==> p(s[until(s, p) as int]),
    decreases s.len(),
{
    if s.len() > 0 && !p(s[0]) {
        let t = s.drop_first();
        lemma_until(t, p);
        assert forall|i: int| 0 <= i < until(s, p) implies !p(#[trigger] s[i]) by {
            if i > 0 {
                assert(t[i - 1] == s[i]);
            }
        }
    }
}

/// A count with the properties of `until` is `until`.
pub proof fn lemma_until_is<T>(s: Seq<T>, p: spec_fn(T) -> bool, k: nat)
    requires
        k <= s.len(),
        forall|i: int| 0 <= i < k ==> !p(#[trigger] s[i]),
        k < s.len() ==> p(s[k as int]),
    ensures
        until(s, p) == k,
{
    lemma_until(s, p);
    let r = until(s, p);
    if r < k {
        assert(!p(s[r as int]));
    }
    if k < r {
        assert(!p(s[k as int]));
    }
}

/// The maximal non-empty stretches without a separator, in order.
pub open spec fn fields<T>(s: Seq<T>, sep: spec_fn(T) -> bool) -> Seq<Seq<T>>
    decreases s.len(),
{
    if s.len() == 0 {
        Seq::empty()
    } else if sep(s[0]) {
        fields(s.drop_first(), sep)
    } else {
        let k = until(s, sep);
        proof {
            lemma_until(s, sep);
        }
        seq![s.take(k as int)] + fields(s.skip(k as int), sep)
    }
}

/// A field is not empty and holds no separator.
pub proof fn lemma_fields<T>(s: Seq<T>, sep: spec_fn(T) -> bool)
    ensures
        forall|i: int| 0 <= i < fields(s, sep).len() ==> is_field(#[trigger] fields(s, sep)[i], sep),
    decreases s.len(),
{
    if s.len() > 0 {
        if sep(s[0]) {
            lemma_fields(s.drop_first(), sep);
            assert(fields(s, sep) == fields(s.drop_first(), sep));
        } else {
            let k = until(s, sep);
            lemma_until(s, sep);
            let first = s.take(k as int);
            let rest = s.skip(k as int);
            lemma_fields(rest, sep);
            assert(fields(s, sep) == seq![first] + fields(rest, sep));
            assert forall|i: int| 0 <= i < fields(s, sep).len() implies is_field(
                #[trigger] fields(s, sep)[i],
                sep,
            ) by {
                if i > 0 {
                    assert(fields(s, sep)[i] == fields(rest, sep)[i - 1]);
                }
            }
        }
    }
}

/// A non-empty stretch without a separator.
pub open spec fn is_field<T>(part: Seq<T>, sep: spec_fn(T) -> bool) -> bool {
    part.len() > 0 && forall|i: int| 0 <= i < part.len() ==> !sep(#[trigger] part[i])
}

/// What stands before a separator and what stands after it are split on their own.
pub proof fn lemma_fields_at_separator<T>(a: Seq<T>, x: T, b: Seq<T>, sep: spec_fn(T) -> bool)
    requires
        sep(x),
    ensures
        fields(a + seq![x] + b, sep) == fields(a, sep) + fields(b, sep),
    decreases a.len(),
{
    let all = a + seq![x] + b;
    if a.len() == 0 {
        assert(all[0] == x);
        assert(all.drop_first() =~= b);
        assert(fields(a, sep) + fields(b, sep) =~= fields(b, sep));
    } else {
        assert(all[0] == a[0]);
        if sep(a[0]) {
            assert(all.drop_first() =~= a.drop_first() + seq![x] + b);
            lemma_fields_at_separator(a.drop_first(), x, b, sep);
        } else {
            lemma_until(a, sep);
            let k = until(a, sep);
            assert forall|i: int| 0 <= i < k implies !sep(#[trigger] all[i]) by {
                assert(all[i] == a[i]);
            }
            if k < a.len() {
                assert(all[k as int] == a[k as int]);
            } else {
                assert(all[k as int] == x);
            }
            lemma_until_is(all, sep, k);
            assert(all.take(k as int) =~= a.take(k as int));
            let rest = a.skip(k as int);
            assert(all.skip(k as int) =~= rest + seq![x] + b);
            lemma_fields_at_separator(rest, x, b, sep);
            assert(fields(all, sep) =~= seq![a.take(k as int)] + (fields(rest, sep) + fields(b, sep)));
            assert(fields(all, sep) =~= fields(a, sep) + fields(b, sep));
        }
    }
}

/// A field is its own only field.
pub proof fn lemma_field_alone<T>(part: Seq<T>, sep: spec_fn(T) -> bool)
    requires
        is_field(part, sep),
    ensures
        fields(part, sep) == seq![part],
{
    lemma_until_is(part, sep, part.len());
    assert(!sep(part[0]));
    assert(part.take(part.len() as int) =~= part);
    assert(part.skip(part.len() as int) =~= Seq::<T>::empty());
    assert(fields(Seq::<T>::empty(), sep) =~= Seq::<Seq<T>>::empty());
    assert(fields(part, sep) =~= seq![part]);
}

/// Fields joined with a separator are split into the same fields.
pub proof fn lemma_joined_fields<T>(parts: Seq<Seq<T>>, x: T, sep: spec_fn(T) -> bool)
    requires
        sep(x),
        forall|i: int| 0 <= i < parts.len() ==> is_field(#[trigger] parts[i], sep),
    ensures
        fields(joined(parts, seq![x]), sep) == parts,
        parts.len() > 0 ==> joined(parts, seq![x]).len() > 0,
    decreases parts.len(),
{
    if parts.len() == 0 {
        assert(fields(joined(parts, seq![x]), sep) =~= parts);
    } else {
        let before = parts.drop_last();
        assert(is_field(parts[parts.len() - 1], sep));
        lemma_field_alone(parts.last(), sep);
        assert forall|i: int| 0 <= i < before.len() implies is_field(#[trigger] before[i], sep) by {
            assert(before[i] == parts[i]);
        }
        lemma_joined_fields(before, x, sep);
        if parts.len() == 1 {
            assert(parts =~= seq![parts.last()]);
        } else {
            lemma_fields_at_separator(joined(before, seq![x]), x, parts.last(), sep);
            assert(parts =~= before + seq![parts.last()]);
        }
    }
}

/// Items joined with a separator between neighbours.
pub open spec fn joined<T>(parts: Seq<Seq<T>>, sep: Seq<T>) -> Seq<T>
    decreases parts.len(),
{
    if parts.len() == 0 {
        Seq::empty()
    } else if parts.len() == 1 {
        parts[0]
    } else {
        joined(parts.drop_last(), sep) + sep + parts.last()
    }
}

/// The views of pieces of text.
pub open spec fn text_views(words: Seq<String>) -> Seq<Seq<char>> {
    words.map_values(|word: String| word@)
}

/// Whether `s` begins with `prefix`.
pub open spec fn begins_with<T>(s: Seq<T>, prefix: Seq<T>) -> bool {
    prefix.len() <= s.len() && s.take(prefix.len() as int) == prefix
}

// ---------------------------------------------------------------------------
// Strings and their characters
// ---------------------------------------------------------------------------

/// The characters of a string, in order.
pub fn chars_of(s: &str) -> (res: Vec<char>)
    ensures
        res@ == s@,
{
    let mut res: Vec<char> = Vec::new();
    for c in it: s.chars()
        invariant
            it.seq() == s@,
            res@ == s@.take(it.index()),
    {
        res.push(c);
        assert(s@.take(it.index() + 1) =~= s@.take(it.index()).push(c));
    }
    assert(s@.take(s@.len() as int) =~= s@);
    res
}

/// The string made of the given characters.
pub fn text_of(chars: &[char]) -> (res: String)
    ensures
        res@ == chars@,
{
    let mut res: String = String::new();
    let mut i: usize = 0;
    while i < chars.len()
        invariant
            i <= chars.len(),
            res@ == chars@.take(i as int),
        decreases chars.len() - i,
    {
        res.push(chars[i]);
        i += 1;
        assert(chars@.take(i as int) =~= chars@.take(i - 1).push(chars@[i - 1]));
    }
    assert(chars@.take(i as int) =~= chars@);
    res
}

/// A slice copied into a vector.
pub fn copy_of<T: Copy>(items: &[T]) -> (res: Vec<T>)
    ensures
        res@ == items@,
{
    let mut res: Vec<T> = Vec::new();
    let mut i: usize = 0;
    while i < items.len()
        invariant
            i <= items.len(),
            res@ == items@.take(i as int),
        decreases items.len() - i,
    {
        res.push(items[i]);
        i += 1;
        assert(items@.take(i as int) =~= items@.take(i - 1).push(items@[i - 1]));
    }
    assert(items@.take(i as int) =~= items@);
    res
}

/// Whether two byte strings are equal.
pub fn bytes_eq(a: &[u8], b: &[u8]) -> (res: bool)
    ensures
        res == (a@ == b@),
{
    if a.len() != b.len() {
        return false;
    }
    let mut i: usize = 0;
    while i < a.len()
        invariant
            i <= a.len(),
            a.len() == b.len(),
            forall|j: int| 0 <= j < i ==> a@[j] == b@[j],
        decreases a.len() - i,
    {
        if a[i] != b[i] {
            return false;
        }
        i += 1;
    }
    assert(a@ =~= b@);
    true
}

/// Two texts with the same encoding are the same text.
pub proof fn lemma_encoding_is_injective(a: Seq<char>, b: Seq<char>)
    ensures
        (encode_utf8(a) == encode_utf8(b)) == (a == b),
{
    vstd::utf8::encode_utf8_decode_utf8(a);
    vstd::utf8::encode_utf8_decode_utf8(b);
}

/// Whether two strings are equal.
pub fn text_eq(a: &str, b: &str) -> (res: bool)
    ensures
        res == (a@ == b@),
{
    proof {
        lemma_encoding_is_injective(a@, b@);
    }
    bytes_eq(a.as_bytes(), b.as_bytes())
}

/// Whether `s` begins with `prefix`.
pub fn slice_begins_with(s: &[char], prefix: &[char]) -> (res: bool)
    ensures
        res == begins_with(s@, prefix@),
{
    if s.len() < prefix.len() {
        return false;
    }
    let mut i: usize = 0;
    while i < prefix.len()
        invariant
            i <= prefix.len() <= s.len(),
            forall|j: int| 0 <= j < i ==> s@[j] == prefix@[j],
        decreases prefix.len() - i,
    {
        if s[i] != prefix[i] {
            assert(s@.take(prefix@.len() as int)[i as int] != prefix@[i as int]);
            return false;
        }
        i += 1;
    }
    assert(s@.take(prefix@.len() as int) =~= prefix@);
    true
}

// ---------------------------------------------------------------------------
// Bytes and UTF-8
// ---------------------------------------------------------------------------

/// What `String::from_utf8_lossy` makes of the bytes.
pub uninterp spec fn lossy_text(bytes: Seq<u8>) -> Seq<char>;

/// `String::from_utf8_lossy`: the text the bytes encode, with every sequence that is not
/// UTF-8 replaced. How much one replacement character stands for is not stated here; bytes
/// that are valid UTF-8 come out as the text they encode.
#[verifier::external_body]
pub(crate) fn text_lossy(bytes: &[u8]) -> (res: String)
    ensures
        res@ == lossy_text(bytes@),
        valid_utf8(bytes@) ==> res@ == decode_utf8(bytes@),
{
    String::from_utf8_lossy(bytes).into_owned()
}

/// `std::str::from_utf8`: the text that the bytes encode, or nothing where they are not
/// valid UTF-8.
#[verifier::external_body]
pub(crate) fn text_from_utf8(bytes: &[u8]) -> (res: Option<&str>)
    ensures
        res is Some <==> valid_utf8(bytes@),
        res matches Some(text) ==> text@ == decode_utf8(bytes@),
{
    std::str::from_utf8(bytes).ok()
}

// ---------------------------------------------------------------------------
// ASCII case
// ---------------------------------------------------------------------------

/// The lower-case form of an ASCII letter; every other byte as it is.
pub open spec fn lower_byte(b: u8) -> u8 {
    if 65 <= b <= 90 {
        (b + 32) as u8
    } else {
        b
    }
}

/// The lower-case form of an ASCII letter; every other character as it is.
pub open spec fn lower_char(c: char) -> char {
    if 'A' <= c <= 'Z' {
        ((c as u8) + 32) as char
    } else {
        c
    }
}

/// Bytes with their ASCII letters in lower case.
pub open spec fn lower_bytes(s: Seq<u8>) -> Seq<u8> {
    s.map_values(|b: u8| lower_byte(b))
}

/// Text with its ASCII letters in lower case.
pub open spec fn lower_text(s: Seq<char>) -> Seq<char> {
    s.map_values(|c: char| lower_char(c))
}

/// Lowers one byte.
pub fn ascii_lower_byte(b: u8) -> (res: u8)
    ensures
        res == lower_byte(b),
{
    if 65 <= b && b <= 90 {
        b + 32
    } else {
        b
    }
}

/// Lowers one character.
pub fn ascii_lower_char(c: char) -> (res: char)
    ensures
        res == lower_char(c),
{
    if 'A' <= c && c <= 'Z' {
        ((c as u8) + 32) as char
    } else {
        c
    }
}

/// Whether two byte strings are equal when the case of ASCII letters is ignored.
pub fn bytes_eq_ignore_case(a: &[u8], b: &[u8]) -> (res: bool)
    ensures
        res == (lower_bytes(a@) == lower_bytes(b@)),
{
    if a.len() != b.len() {
        assert(lower_bytes(a@).len() != lower_bytes(b@).len());
        return false;
    }
    let mut i: usize = 0;
    while i < a.len()
        invariant
            i <= a.len(),
            a.len() == b.len(),
            forall|j: int| 0 <= j < i ==> lower_byte(a@[j]) == lower_byte(b@[j]),
        decreases a.len() - i,
    {
        if ascii_lower_byte(a[i]) != ascii_lower_byte(b[i]) {
            assert(lower_bytes(a@)[i as int] != lower_bytes(b@)[i as int]);
            return false;
        }
        i += 1;
    }
    assert(lower_bytes(a@) =~= lower_bytes(b@));
    true
}

/// Whether two pieces of text are equal when the case of ASCII letters is ignored.
pub fn chars_eq_ignore_case(a: &[char], b: &[char]) -> (res: bool)
    ensures
        res == (lower_text(a@) == lower_text(b@)),
{
    if a.len() != b.len() {
        assert(lower_text(a@).len() != lower_text(b@).len());
        return false;
    }
    let mut i: usize = 0;
    while i < a.len()
        invariant
            i <= a.len(),
            a.len() == b.len(),
            forall|j: int| 0 <= j < i ==> lower_char(a@[j]) == lower_char(b@[j]),
        decreases a.len() - i,
    {
        if ascii_lower_char(a[i]) != ascii_lower_char(b[i]) {
            assert(lower_text(a@)[i as int] != lower_text(b@)[i as int]);
            return false;
        }
        i += 1;
    }
    assert(lower_text(a@) =~= lower_text(b@));
    true
}

/// A string with its ASCII letters in lower case.
pub fn ascii_lowercase(s: &str) -> (res: String)
    ensures
        res@ == lower_text(s@),
{
    let chars: Vec<char> = chars_of(s);
    let mut res: String = String::new();
    let mut i: usize = 0;
    while i < chars.len()
        invariant
            i <= chars.len(),
            res@ == lower_text(chars@.take(i as int)),
        decreases chars.len() - i,
    {
        res.push(ascii_lower_char(chars[i]));
        i += 1;
        assert(lower_text(chars@.take(i as int)) =~= lower_text(chars@.take(i - 1)).push(
            lower_char(chars@[i - 1]),
        ));
    }
    assert(chars@.take(i as int) =~= s@);
    res
}

// ---------------------------------------------------------------------------
// White space
// ---------------------------------------------------------------------------

/// The characters with the Unicode property `White_Space`.
pub open spec fn white_space(c: char) -> bool {
    ||| '\u{9}' <= c <= '\u{d}'
    ||| c == ' '
    ||| c == '\u{85}'
    ||| c == '\u{a0}'
    ||| c == '\u{1680}'
    ||| '\u{2000}' <= c <= '\u{200a}'
    ||| c == '\u{2028}'
    ||| c == '\u{2029}'
    ||| c == '\u{202f}'
    ||| c == '\u{205f}'
    ||| c == '\u{3000}'
}

/// `white_space` as a predicate.
pub open spec fn is_space() -> spec_fn(char) -> bool {
    |c: char| white_space(c)
}

/// Whether a character is white space.
pub fn is_white_space(c: char) -> (res: bool)
    ensures
        res == white_space(c),
{
    ('\u{9}' <= c && c <= '\u{d}') || c == ' ' || c == '\u{85}' || c == '\u{a0}' || c == '\u{1680}'
        || ('\u{2000}' <= c && c <= '\u{200a}') || c == '\u{2028}' || c == '\u{2029}' || c
        == '\u{202f}' || c == '\u{205f}' || c == '\u{3000}'
}

/// Text without the white space it begins with.
pub open spec fn trimmed_start(s: Seq<char>) -> Seq<char> {
    s.skip(run(s, is_space()) as int)
}

/// Text without the items at its end that satisfy `p`.
pub open spec fn trimmed_end_of(s: Seq<char>, p: spec_fn(char) -> bool) -> Seq<char>
    decreases s.len(),
{
    if s.len() > 0 && p(s.last()) {
        trimmed_end_of(s.drop_last(), p)
    } else {
        s
    }
}

/// Text without white space at either end.
pub open spec fn trimmed(s: Seq<char>) -> Seq<char> {
    trimmed_end_of(trimmed_start(s), is_space())
}

/// Text cut at the last item that does not satisfy `p`.
pub proof fn lemma_trimmed_end_is(s: Seq<char>, p: spec_fn(char) -> bool, n: int)
    requires
        0 <= n <= s.len(),
        forall|i: int| n <= i < s.len() ==> p(#[trigger] s[i]),
        n > 0 ==> !p(s[n - 1]),
    ensures
        trimmed_end_of(s, p) == s.take(n),
    decreases s.len(),
{
    if n < s.len() {
        assert(p(s[s.len() - 1]));
        lemma_trimmed_end_is(s.drop_last(), p, n);
        assert(s.drop_last().take(n) =~= s.take(n));
    } else {
        assert(s.take(n) =~= s);
    }
}

/// Removes white space at the start.
pub fn trim_start(s: &[char]) -> (res: &[char])
    ensures
        res@ == trimmed_start(s@),
{
    let mut i: usize = 0;
    while i < s.len() && is_white_space(s[i])
        invariant
            i <= s.len(),
            forall|j: int| 0 <= j < i ==> is_space()(#[trigger] s@[j]),
        decreases s.len() - i,
    {
        i += 1;
    }
    proof {
        lemma_run_is(s@, is_space(), i as nat);
        assert(s@.subrange(i as int, s@.len() as int) =~= s@.skip(i as int));
    }
    vstd::slice::slice_subrange(s, i, s.len())
}

/// Removes white space at the end.
pub fn trim_end(s: &[char]) -> (res: &[char])
    ensures
        res@ == trimmed_end_of(s@, is_space()),
{
    let mut n: usize = s.len();
    while n > 0 && is_white_space(s[n - 1])
        invariant
            n <= s.len(),
            forall|j: int| n <= j < s.len() ==> is_space()(#[trigger] s@[j]),
        decreases n,
    {
        n -= 1;
    }
    proof {
        lemma_trimmed_end_is(s@, is_space(), n as int);
        assert(s@.subrange(0, n as int) =~= s@.take(n as int));
    }
    vstd::slice::slice_subrange(s, 0, n)
}

/// Removes white space at both ends.
pub fn trim(s: &[char]) -> (res: &[char])
    ensures
        res@ == trimmed(s@),
{
    trim_end(trim_start(s))
}

/// The characters equal to `c`, as a predicate.
pub open spec fn is_char(c: char) -> spec_fn(char) -> bool {
    |x: char| x == c
}

/// Removes every `c` at the end.
pub fn trim_end_char(s: &[char], c: char) -> (res: &[char])
    ensures
        res@ == trimmed_end_of(s@, is_char(c)),
{
    let mut n: usize = s.len();
    while n > 0 && s[n - 1] == c
        invariant
            n <= s.len(),
            forall|j: int| n <= j < s.len() ==> is_char(c)(#[trigger] s@[j]),
        decreases n,
    {
        n -= 1;
    }
    proof {
        lemma_trimmed_end_is(s@, is_char(c), n as int);
        assert(s@.subrange(0, n as int) =~= s@.take(n as int));
    }
    vstd::slice::slice_subrange(s, 0, n)
}

/// The index of the first `c`, or the length where there is none.
pub fn index_of_char(s: &[char], c: char) -> (res: usize)
    ensures
        res == until(s@, is_char(c)),
        res <= s@.len(),
{
    let mut i: usize = 0;
    while i < s.len() && s[i] != c
        invariant
            i <= s.len(),
            forall|j: int| 0 <= j < i ==> !is_char(c)(#[trigger] s@[j]),
        decreases s.len() - i,
    {
        i += 1;
    }
    proof {
        lemma_until_is(s@, is_char(c), i as nat);
    }
    i
}

// ---------------------------------------------------------------------------
// Order
// ---------------------------------------------------------------------------

/// Lexicographic order of sequences under a strict order of their items.
pub open spec fn lex_before<T>(a: Seq<T>, b: Seq<T>, lt: spec_fn(T, T) -> bool) -> bool
    decreases a.len(),
{
    if b.len() == 0 {
        false
    } else if a.len() == 0 {
        true
    } else if lt(a[0], b[0]) {
        true
    } else if lt(b[0], a[0]) {
        false
    } else {
        lex_before(a.drop_first(), b.drop_first(), lt)
    }
}

/// A strict total order.
pub open spec fn strict_total<T>(lt: spec_fn(T, T) -> bool) -> bool {
    &&& forall|x: T| !#[trigger] lt(x, x)
    &&& forall|x: T, y: T, z: T| #[trigger] lt(x, y) && #[trigger] lt(y, z) ==> lt(x, z)
    &&& forall|x: T, y: T| #[trigger] lt(x, y) || lt(y, x) || x == y
}

/// The lexicographic order is irreflexive and total on two sequences.
pub proof fn lemma_lex_total<T>(a: Seq<T>, b: Seq<T>, lt: spec_fn(T, T) -> bool)
    requires
        strict_total(lt),
    ensures
        !lex_before(a, a, lt),
        lex_before(a, b, lt) || lex_before(b, a, lt) || a == b,
        !(lex_before(a, b, lt) && lex_before(b, a, lt)),
    decreases a.len(),
{
    if a.len() > 0 {
        lemma_lex_total(a.drop_first(), a.drop_first(), lt);
        if b.len() > 0 {
            lemma_lex_total(a.drop_first(), b.drop_first(), lt);
            assert(lt(a[0], b[0]) || lt(b[0], a[0]) || a[0] == b[0]);
            if a[0] == b[0] && a.drop_first() == b.drop_first() {
                assert(a =~= seq![a[0]] + a.drop_first());
                assert(b =~= seq![b[0]] + b.drop_first());
            }
        }
    } else if b.len() == 0 {
        assert(a =~= b);
    }
}

/// The lexicographic order is transitive.
pub proof fn lemma_lex_transitive<T>(a: Seq<T>, b: Seq<T>, c: Seq<T>, lt: spec_fn(T, T) -> bool)
    requires
        strict_total(lt),
        lex_before(a, b, lt),
        lex_before(b, c, lt),
    ensures
        lex_before(a, c, lt),
    decreases a.len(),
{
    if a.len() > 0 && b.len() > 0 && c.len() > 0 {
        assert(lt(a[0], b[0]) || lt(b[0], a[0]) || a[0] == b[0]);
        assert(lt(b[0], c[0]) || lt(c[0], b[0]) || b[0] == c[0]);
        if a[0] == b[0] && b[0] == c[0] {
            lemma_lex_transitive(a.drop_first(), b.drop_first(), c.drop_first(), lt);
        }
    }
}

/// The order of bytes.
pub open spec fn byte_lt() -> spec_fn(u8, u8) -> bool {
    |x: u8, y: u8| x < y
}

/// Byte strings in lexicographic order.
pub open spec fn bytes_before(a: Seq<u8>, b: Seq<u8>) -> bool {
    lex_before(a, b, byte_lt())
}

/// The order of byte strings, as a relation.
pub open spec fn bytes_lt() -> spec_fn(Seq<u8>, Seq<u8>) -> bool {
    |a: Seq<u8>, b: Seq<u8>| bytes_before(a, b)
}

/// Byte strings are in a strict total order.
pub proof fn lemma_bytes_strict_total()
    ensures
        strict_total(byte_lt()),
        strict_total(bytes_lt()),
{
    assert(strict_total(byte_lt()));
    assert forall|x: Seq<u8>| !#[trigger] bytes_lt()(x, x) by {
        lemma_lex_total(x, x, byte_lt());
    }
    assert forall|x: Seq<u8>, y: Seq<u8>, z: Seq<u8>| #[trigger]
        bytes_lt()(x, y) && #[trigger] bytes_lt()(y, z) implies bytes_lt()(x, z) by {
        lemma_lex_transitive(x, y, z, byte_lt());
    }
    assert forall|x: Seq<u8>, y: Seq<u8>| #[trigger] bytes_lt()(x, y) || bytes_lt()(y, x) || x == y by {
        lemma_lex_total(x, y, byte_lt());
    }
}

/// Skipping a common prefix does not change the lexicographic order.
pub proof fn lemma_lex_skip<T>(a: Seq<T>, b: Seq<T>, lt: spec_fn(T, T) -> bool, k: int)
    requires
        strict_total(lt),
        0 <= k <= a.len(),
        k <= b.len(),
        forall|i: int| 0 <= i < k ==> a[i] == b[i],
    ensures
        lex_before(a, b, lt) == lex_before(a.skip(k), b.skip(k), lt),
    decreases k,
{
    if k == 0 {
        assert(a.skip(0) =~= a);
        assert(b.skip(0) =~= b);
    } else {
        assert(a[0] == b[0]);
        assert(!lt(a[0], a[0]));
        let x = a.drop_first();
        let y = b.drop_first();
        assert forall|i: int| 0 <= i < k - 1 implies x[i] == y[i] by {
            assert(a[i + 1] == b[i + 1]);
        }
        lemma_lex_skip(x, y, lt, k - 1);
        assert(x.skip(k - 1) =~= a.skip(k));
        assert(y.skip(k - 1) =~= b.skip(k));
    }
}

/// Whether `a` comes before `b` in the order of byte strings.
pub fn bytes_precede(a: &[u8], b: &[u8]) -> (res: bool)
    ensures
        res == bytes_before(a@, b@),
{
    let mut i: usize = 0;
    while i < a.len() && i < b.len() && a[i] == b[i]
        invariant
            i <= a.len(),
            i <= b.len(),
            forall|j: int| 0 <= j < i ==> a@[j] == b@[j],
        decreases a.len() - i,
    {
        i += 1;
    }
    proof {
        lemma_bytes_strict_total();
        lemma_lex_skip(a@, b@, byte_lt(), i as int);
    }
    if i == b.len() {
        false
    } else if i == a.len() {
        true
    } else {
        a[i] < b[i]
    }
}

} // verus!
