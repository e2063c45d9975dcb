//! What holds of words, names and white space, letter by letter.

use vstd::prelude::*;
use vstd::utf8::{encode_utf8, is_ascii_chars};
use crate::discovery::spells;
use crate::markdown::is_word;
use crate::paths::{extension_of, lemma_last_dot_is, path_extension, stem_of};
use crate::text::{
    is_space, lemma_run_is, lemma_trimmed_end_is, lower_bytes, lower_text, trimmed, trimmed_start,
    white_space,
};

verus! {

/// Whether a byte is a letter, in either case; `small` is the letter in lower case.
pub open spec fn either_case(b: u8, small: char) -> bool {
    b == small as u8 || ('a' <= small <= 'z' && b + 32 == small as u8)
}

/// Whether bytes are a word in lower case, but for the case of their letters.
pub open spec fn in_any_case(bytes: Seq<u8>, word: Seq<char>) -> bool {
    bytes.len() == word.len() && forall|i: int|
        0 <= i < bytes.len() ==> either_case(#[trigger] bytes[i], word[i])
}

/// Whether text is a word in lower case, but for the case of its letters.
pub open spec fn text_in_any_case(text: Seq<char>, word: Seq<char>) -> bool {
    text.len() == word.len() && forall|i: int|
        0 <= i < text.len() ==> (#[trigger] text[i] == word[i] || ('a' <= word[i] <= 'z' && text[i] as int
            + 32 == word[i] as int))
}

/// A word of ASCII without capital letters.
pub open spec fn small_word(word: Seq<char>) -> bool {
    forall|i: int|
        0 <= i < word.len() ==> '\0' <= #[trigger] word[i] <= '\u{7f}' && !('A' <= word[i] <= 'Z')
}

/// The bytes of ASCII text.
pub open spec fn ascii_bytes(word: Seq<char>) -> Seq<u8> {
    Seq::new(word.len(), |i: int| word[i] as u8)
}

pub proof fn lemma_ascii_bytes(word: Seq<char>)
    requires
        forall|i: int| 0 <= i < word.len() ==> '\0' <= #[trigger] word[i] <= '\u{7f}',
    ensures
        encode_utf8(word) == ascii_bytes(word),
{
    assert(is_ascii_chars(word));
    vstd::utf8::is_ascii_chars_encode_utf8(word);
    assert(encode_utf8(word) =~= ascii_bytes(word));
}

/// Bytes spell a word where they are its letters, each in either case.
pub proof fn law_spelling_ignores_case(bytes: Seq<u8>, word: Seq<char>)
    requires
        small_word(word),
    ensures
        spells(bytes, word) <==> in_any_case(bytes, word),
{
    lemma_ascii_bytes(word);
    let plain = ascii_bytes(word);
    if spells(bytes, word) {
        assert(lower_bytes(bytes).len() == lower_bytes(plain).len());
        assert forall|i: int| 0 <= i < bytes.len() implies either_case(#[trigger] bytes[i], word[i]) by {
            assert(lower_bytes(bytes)[i] == lower_bytes(plain)[i]);
            assert(plain[i] == word[i] as u8);
        }
    }
    if in_any_case(bytes, word) {
        assert forall|i: int| 0 <= i < bytes.len() implies lower_bytes(bytes)[i] == lower_bytes(plain)[i] by {
            assert(either_case(bytes[i], word[i]));
            assert(plain[i] == word[i] as u8);
        }
        assert(lower_bytes(bytes) =~= lower_bytes(plain));
    }
}

/// Text in lower case has the same characters, but that every letter from `A` to `Z` is thirty-two
/// places further on.
pub proof fn law_lower_case(text: Seq<char>, i: int)
    requires
        0 <= i < text.len(),
    ensures
        lower_text(text).len() == text.len(),
        'A' <= text[i] <= 'Z' ==> lower_text(text)[i] as int == text[i] as int + 32,
        !('A' <= text[i] <= 'Z') ==> lower_text(text)[i] == text[i],
{
}

/// Text is a word where it has its letters, each in either case.
pub proof fn law_words_ignore_case(text: Seq<char>, word: Seq<char>)
    requires
        small_word(word),
    ensures
        is_word(text, word) <==> text_in_any_case(text, word),
{
    if is_word(text, word) {
        assert(lower_text(text).len() == lower_text(word).len());
        assert forall|i: int| 0 <= i < text.len() implies (#[trigger] text[i] == word[i] || ('a'
            <= word[i] <= 'z' && text[i] as int + 32 == word[i] as int)) by {
            assert(lower_text(text)[i] == lower_text(word)[i]);
            assert(!('A' <= word[i] <= 'Z'));
            law_lower_case(text, i);
            law_lower_case(word, i);
        }
    }
    if text_in_any_case(text, word) {
        assert forall|i: int| 0 <= i < text.len() implies lower_text(text)[i] == lower_text(word)[i] by {
            assert(text[i] == text[i]);
            assert(!('A' <= word[i] <= 'Z'));
            law_lower_case(text, i);
            law_lower_case(word, i);
        }
        assert(lower_text(text) =~= lower_text(word));
    }
}

/// A name is split at its last dot: what stands before it is the stem, what follows the extension.
pub proof fn law_names_are_split_at_their_last_dot(stem: Seq<u8>, extension: Seq<u8>)
    requires
        stem.len() > 0,
        forall|i: int| 0 <= i < extension.len() ==> #[trigger] extension[i] != 46,
    ensures
        stem_of(stem + seq![46u8] + extension) == stem,
        extension_of(stem + seq![46u8] + extension) == Some(extension),
{
    let name = stem + seq![46u8] + extension;
    let k = stem.len() as int;
    assert forall|i: int| k < i < name.len() implies #[trigger] name[i] != 46 by {
        assert(name[i] == extension[i - k - 1]);
    }
    lemma_last_dot_is(name, k);
    assert(name.take(k) =~= stem);
    assert(name.skip(k + 1) =~= extension);
}

/// A name without a dot, or with one at its beginning only, has no extension.
pub proof fn law_names_without_extension(name: Seq<u8>)
    requires
        forall|i: int| 1 <= i < name.len() ==> #[trigger] name[i] != 46,
    ensures
        stem_of(name) == name,
        extension_of(name) is None,
{
    if name.len() > 0 && name[0] == 46 {
        lemma_last_dot_is(name, 0);
    } else {
        lemma_last_dot_is(name, -1);
    }
}

/// The last name of a path tells its extension, and a step to the parent directory has none.
pub proof fn law_paths_have_the_extension_of_their_last_name(directory: Seq<Seq<u8>>, name: Seq<u8>)
    ensures
        name != seq![46u8, 46u8] ==> path_extension(directory.push(name)) == extension_of(name),
        path_extension(directory.push(seq![46u8, 46u8])) is None,
        path_extension(Seq::empty()) is None,
{
    assert(crate::paths::above() =~= seq![46u8, 46u8]);
    assert(directory.push(name).last() == name);
}

/// White space is the characters with the property of that name in Unicode.
pub proof fn law_white_space(c: char)
    ensures
        ({
            let n = c as u32;
            white_space(c) <==> (n == 0x9 || n == 0xa || n == 0xb || n == 0xc || n == 0xd || n == 0x20
                || n == 0x85 || n == 0xa0 || n == 0x1680 || (0x2000 <= n && n <= 0x200a) || n
                == 0x2028 || n == 0x2029 || n == 0x202f || n == 0x205f || n == 0x3000)
        }),
{
}

/// Trimming takes away the white space at both ends, and nothing else.
pub proof fn law_trimming(before: Seq<char>, text: Seq<char>, after: Seq<char>)
    requires
        forall|i: int| 0 <= i < before.len() ==> white_space(#[trigger] before[i]),
        forall|i: int| 0 <= i < after.len() ==> white_space(#[trigger] after[i]),
        text.len() > 0,
        !white_space(text[0]),
        !white_space(text[text.len() - 1]),
    ensures
        trimmed(before + text + after) == text,
        trimmed_start(before + text + after) == text + after,
{
    let all = before + text + after;
    let n = before.len();
    assert forall|i: int| 0 <= i < n implies is_space()(#[trigger] all[i]) by {
        assert(all[i] == before[i]);
    }
    assert(all[n as int] == text[0]);
    lemma_run_is(all, is_space(), n);
    let rest = text + after;
    assert(all.skip(n as int) =~= rest);
    assert forall|i: int| text.len() <= i < rest.len() implies is_space()(#[trigger] rest[i]) by {
        assert(rest[i] == after[i - text.len()]);
    }
    lemma_trimmed_end_is(rest, is_space(), text.len() as int);
    assert(rest.take(text.len() as int) =~= text);
}

/// Nothing is left of white space alone.
pub proof fn law_white_space_is_trimmed(text: Seq<char>)
    requires
        forall|i: int| 0 <= i < text.len() ==> white_space(#[trigger] text[i]),
    ensures
        trimmed(text).len() == 0,
        trimmed_start(text).len() == 0,
{
    assert forall|i: int| 0 <= i < text.len() implies is_space()(#[trigger] text[i]) by {}
    lemma_run_is(text, is_space(), text.len());
    lemma_trimmed_end_is(trimmed_start(text), is_space(), 0);
}

} // verus!
