//! What holds of every command line.

use vstd::prelude::*;
use vstd::utf8::{encode_utf8, valid_utf8};
use crate::catalog::{CatalogView, DiagnosticView};
use crate::cli::{
    all_digits, argument_of, asked_for, decimal_text, decimal_value, is_digit, nothing_settled,
    port_of, port_value, summary, unsigned_text, warning, ActionView, Argument, Settled,
};
use crate::pathing_laws::lemma_encode_concat;
use crate::paths::shown;
use crate::text::{begins_with, lemma_encoding_is_injective};
use crate::word_laws::lemma_ascii_bytes;

verus! {

/// What the options are.
proof fn lemma_options()
    ensures
        argument_of(encode_utf8("--"@)) == Argument::Separator,
        argument_of(encode_utf8("--no-open"@)) == Argument::NoOpen,
        argument_of(encode_utf8("--port"@)) == Argument::Port,
{
    reveal_strlit("--");
    reveal_strlit("-h");
    reveal_strlit("--help");
    reveal_strlit("-V");
    reveal_strlit("--version");
    reveal_strlit("--no-open");
    reveal_strlit("--port");
    lemma_encoding_is_injective("--no-open"@, "--"@);
    lemma_encoding_is_injective("--no-open"@, "-h"@);
    lemma_encoding_is_injective("--no-open"@, "--help"@);
    lemma_encoding_is_injective("--no-open"@, "-V"@);
    lemma_encoding_is_injective("--no-open"@, "--version"@);
    lemma_encoding_is_injective("--port"@, "--"@);
    lemma_encoding_is_injective("--port"@, "-h"@);
    lemma_encoding_is_injective("--port"@, "--help"@);
    lemma_encoding_is_injective("--port"@, "-V"@);
    lemma_encoding_is_injective("--port"@, "--version"@);
    lemma_encoding_is_injective("--port"@, "--no-open"@);
    assert("--no-open"@[2] == 'n' && "--version"@[2] == 'v');
    assert("--port"@[2] == 'p' && "--help"@[2] == 'h');
}

/// Behind `--` any argument is a path, whatever it begins with.
pub proof fn law_separator_takes_any_path(path: Seq<u8>)
    ensures
        asked_for(seq![encode_utf8("--"@), path], nothing_settled()) == Ok::<
            ActionView,
            Seq<char>,
        >(ActionView::Run { path, no_open: false, port: 0 }),
{
    lemma_options();
    let arguments = seq![encode_utf8("--"@), path];
    assert(arguments.drop_first() =~= seq![path]);
    assert(seq![path].drop_first() =~= Seq::empty());
    reveal_with_fuel(asked_for, 4);
}

/// The options may stand before the path or behind it.
pub proof fn law_options_stand_in_any_order(path: Seq<u8>, value: Seq<u8>)
    requires
        argument_of(path) == Argument::Path,
        port_of(value) is Some,
    ensures
        ({
            let no_open = encode_utf8("--no-open"@);
            let port = encode_utf8("--port"@);
            let run = Ok::<ActionView, Seq<char>>(
                ActionView::Run { path, no_open: true, port: port_of(value)->0 },
            );
            &&& asked_for(seq![path, no_open, port, value], nothing_settled()) == run
            &&& asked_for(seq![path, port, value, no_open], nothing_settled()) == run
            &&& asked_for(seq![no_open, path, port, value], nothing_settled()) == run
            &&& asked_for(seq![no_open, port, value, path], nothing_settled()) == run
            &&& asked_for(seq![port, value, path, no_open], nothing_settled()) == run
            &&& asked_for(seq![port, value, no_open, path], nothing_settled()) == run
        }),
{
    lemma_options();
    let no_open = encode_utf8("--no-open"@);
    let port = encode_utf8("--port"@);
    lemma_three_settings(path, value, seq![path, no_open, port, value]);
    lemma_three_settings(path, value, seq![path, port, value, no_open]);
    lemma_three_settings(path, value, seq![no_open, path, port, value]);
    lemma_three_settings(path, value, seq![no_open, port, value, path]);
    lemma_three_settings(path, value, seq![port, value, path, no_open]);
    lemma_three_settings(path, value, seq![port, value, no_open, path]);
}

proof fn lemma_three_settings(path: Seq<u8>, value: Seq<u8>, arguments: Seq<Seq<u8>>)
    requires
        argument_of(path) == Argument::Path,
        port_of(value) is Some,
        arguments.len() == 4,
        ({
            let no_open = encode_utf8("--no-open"@);
            let port = encode_utf8("--port"@);
            ||| arguments == seq![path, no_open, port, value]
            ||| arguments == seq![path, port, value, no_open]
            ||| arguments == seq![no_open, path, port, value]
            ||| arguments == seq![no_open, port, value, path]
            ||| arguments == seq![port, value, path, no_open]
            ||| arguments == seq![port, value, no_open, path]
        }),
    ensures
        asked_for(arguments, nothing_settled()) == Ok::<ActionView, Seq<char>>(
            ActionView::Run { path, no_open: true, port: port_of(value)->0 },
        ),
{
    lemma_options();
    let one = arguments.drop_first();
    let two = one.drop_first();
    let three = two.drop_first();
    let four = three.drop_first();
    assert(one[0] == arguments[1]);
    assert(two[0] == arguments[2]);
    assert(three[0] == arguments[3]);
    assert(four.len() == 0);
    reveal_with_fuel(asked_for, 5);
}

/// Every number below 65536, written in decimal, is read as that port.
pub proof fn law_ports_are_read_back(n: nat)
    requires
        n < 65536,
    ensures
        port_value(decimal_text(n)) == Some(n as u16),
{
    lemma_decimal_text(n);
    assert(unsigned_text(decimal_text(n)) == decimal_text(n));
}

proof fn lemma_decimal_text(n: nat)
    ensures
        decimal_text(n).len() > 0,
        all_digits(decimal_text(n)),
        decimal_text(n)[0] != '+',
        decimal_value(decimal_text(n)) == n,
    decreases n,
{
    let text = decimal_text(n);
    if n < 10 {
        assert(text.drop_last() =~= Seq::empty());
        assert(is_digit(text[0]));
        assert(decimal_value(text.drop_last()) == 0);
    } else {
        lemma_decimal_text(n / 10);
        let before = decimal_text(n / 10);
        assert(text.drop_last() =~= before);
        assert(is_digit(text.last()));
        assert forall|i: int| 0 <= i < text.len() implies is_digit(#[trigger] text[i]) by {
            if i < before.len() {
                assert(text[i] == before[i]);
            }
        }
    }
}

// ---------------------------------------------------------------------------
// Arguments one by one
// ---------------------------------------------------------------------------

/// The bytes of the words that are options.
proof fn lemma_option_bytes()
    ensures
        encode_utf8("--"@) == seq![45u8, 45u8],
        encode_utf8("-h"@) == seq![45u8, 104u8],
        encode_utf8("-V"@) == seq![45u8, 86u8],
        encode_utf8("--help"@) == seq![45u8, 45u8, 104u8, 101u8, 108u8, 112u8],
        encode_utf8("--version"@) == seq![
            45u8,
            45u8,
            118u8,
            101u8,
            114u8,
            115u8,
            105u8,
            111u8,
            110u8,
        ],
        encode_utf8("--no-open"@) == seq![
            45u8,
            45u8,
            110u8,
            111u8,
            45u8,
            111u8,
            112u8,
            101u8,
            110u8,
        ],
        encode_utf8("--port"@) == seq![45u8, 45u8, 112u8, 111u8, 114u8, 116u8],
        encode_utf8("--port="@) == seq![45u8, 45u8, 112u8, 111u8, 114u8, 116u8, 61u8],
        encode_utf8("-"@) == seq![45u8],
        encode_utf8("."@) == seq![46u8],
{
    reveal_strlit("--");
    reveal_strlit("-h");
    reveal_strlit("-V");
    reveal_strlit("--help");
    reveal_strlit("--version");
    reveal_strlit("--no-open");
    reveal_strlit("--port");
    reveal_strlit("--port=");
    reveal_strlit("-");
    reveal_strlit(".");
    lemma_ascii_bytes("--"@);
    lemma_ascii_bytes("-h"@);
    lemma_ascii_bytes("-V"@);
    lemma_ascii_bytes("--help"@);
    lemma_ascii_bytes("--version"@);
    lemma_ascii_bytes("--no-open"@);
    lemma_ascii_bytes("--port"@);
    lemma_ascii_bytes("--port="@);
    lemma_ascii_bytes("-"@);
    lemma_ascii_bytes("."@);
}

proof fn lemma_first(first: Seq<u8>, rest: Seq<Seq<u8>>)
    ensures
        (seq![first] + rest).len() == rest.len() + 1,
        (seq![first] + rest)[0] == first,
        (seq![first] + rest).drop_first() == rest,
{
    assert((seq![first] + rest).drop_first() =~= rest);
}

/// Without arguments the library is the current directory, on any free port, and is opened.
pub proof fn law_nothing_need_be_said()
    ensures
        asked_for(Seq::empty(), nothing_settled()) == Ok::<ActionView, Seq<char>>(
            ActionView::Run { path: seq![46u8], no_open: false, port: 0 },
        ),
{
    lemma_option_bytes();
}

/// As long as options may follow, `-h` and `--help` ask for help, and `-V` and `--version` for the
/// version, whatever stands behind them.
pub proof fn law_help_and_version_are_given_at_once(rest: Seq<Seq<u8>>, settled: Settled)
    requires
        !settled.positional_only,
    ensures
        asked_for(seq![encode_utf8("-h"@)] + rest, settled) == Ok::<ActionView, Seq<char>>(
            ActionView::Help,
        ),
        asked_for(seq![encode_utf8("--help"@)] + rest, settled) == Ok::<ActionView, Seq<char>>(
            ActionView::Help,
        ),
        asked_for(seq![encode_utf8("-V"@)] + rest, settled) == Ok::<ActionView, Seq<char>>(
            ActionView::Version,
        ),
        asked_for(seq![encode_utf8("--version"@)] + rest, settled) == Ok::<ActionView, Seq<char>>(
            ActionView::Version,
        ),
{
    lemma_option_bytes();
    lemma_first(encode_utf8("-h"@), rest);
    lemma_first(encode_utf8("--help"@), rest);
    lemma_first(encode_utf8("-V"@), rest);
    lemma_first(encode_utf8("--version"@), rest);
    assert(encode_utf8("--help"@).len() == 6 && encode_utf8("--version"@).len() == 9);
    assert(encode_utf8("-V"@)[1] == 86 && encode_utf8("-h"@)[1] == 104 && encode_utf8("--"@)[1]
        == 45);
}

/// `--no-open` settles that nothing is opened, and `--` that only paths follow; neither settles
/// anything else.
pub proof fn law_switches_settle_one_thing(rest: Seq<Seq<u8>>, settled: Settled)
    requires
        !settled.positional_only,
    ensures
        asked_for(seq![encode_utf8("--no-open"@)] + rest, settled) == asked_for(
            rest,
            Settled { no_open: true, ..settled },
        ),
        asked_for(seq![encode_utf8("--"@)] + rest, settled) == asked_for(
            rest,
            Settled { positional_only: true, ..settled },
        ),
{
    lemma_options();
    lemma_first(encode_utf8("--no-open"@), rest);
    lemma_first(encode_utf8("--"@), rest);
}

/// `--port` settles the port by the argument behind it, and `--port=` by what stands behind the
/// equals sign; a later port takes the place of an earlier one. Without a value, or with one that is
/// no port, it is refused.
pub proof fn law_ports_are_settled(text: Seq<char>, rest: Seq<Seq<u8>>, settled: Settled)
    requires
        !settled.positional_only,
    ensures
        ({
            let port = encode_utf8("--port"@);
            let value = encode_utf8(text);
            let apart = asked_for(seq![port] + (seq![value] + rest), settled);
            let in_one = asked_for(seq![encode_utf8("--port="@ + text)] + rest, settled);
            &&& apart == in_one
            &&& match port_value(text) {
                Some(p) => apart == asked_for(rest, Settled { port: p, ..settled }),
                None => apart == Err::<ActionView, Seq<char>>(
                    "invalid port '"@ + text + "'"@ + " (expected 0 through 65535)"@,
                ),
            }
            &&& asked_for(seq![port], settled) == Err::<ActionView, Seq<char>>(
                "--port requires a value"@,
            )
        }),
{
    lemma_options();
    lemma_option_bytes();
    let port = encode_utf8("--port"@);
    let value = encode_utf8(text);
    let start = encode_utf8("--port="@);
    let whole = encode_utf8("--port="@ + text);
    vstd::utf8::encode_utf8_decode_utf8(text);
    vstd::utf8::encode_utf8_valid_utf8(text);
    vstd::utf8::encode_utf8_valid_utf8("--port="@ + text);
    lemma_encode_concat("--port="@, text);
    assert(whole == start + value);
    assert(whole.take(7) =~= start);
    assert(whole.skip(7) =~= value);
    assert(whole[2] == 112 && whole[6] == 61);
    assert(argument_of(whole) == Argument::PortIs(value));
    lemma_first(port, seq![value] + rest);
    lemma_first(value, rest);
    lemma_first(whole, rest);
    assert(seq![port].drop_first().len() == 0);
}

/// An argument that does not begin with a hyphen is a path, and behind `--` every argument is. The
/// first is the library; a second is refused.
pub proof fn law_one_path_is_taken(argument: Seq<u8>, rest: Seq<Seq<u8>>, settled: Settled)
    requires
        settled.positional_only || argument.len() == 0 || argument[0] != 45,
    ensures
        settled.path is None ==> asked_for(seq![argument] + rest, settled) == asked_for(
            rest,
            Settled { path: Some(argument), ..settled },
        ),
        settled.path is Some ==> asked_for(seq![argument] + rest, settled) == Err::<
            ActionView,
            Seq<char>,
        >("unexpected second path '"@ + shown(argument) + "'"@),
{
    lemma_option_bytes();
    lemma_first(argument, rest);
    if !settled.positional_only {
        assert(encode_utf8("--"@)[0] == 45);
        if begins_with(argument, encode_utf8("-"@)) {
            assert(argument.take(1)[0] == argument[0]);
        }
        if begins_with(argument, encode_utf8("--port="@)) {
            assert(argument.take(7)[0] == argument[0]);
        }
    }
}

/// Any other argument that begins with a hyphen is refused.
pub proof fn law_other_options_are_refused(argument: Seq<u8>, rest: Seq<Seq<u8>>, settled: Settled)
    requires
        !settled.positional_only,
        argument.len() > 0,
        argument[0] == 45,
        argument != encode_utf8("--"@),
        argument != encode_utf8("-h"@),
        argument != encode_utf8("--help"@),
        argument != encode_utf8("-V"@),
        argument != encode_utf8("--version"@),
        argument != encode_utf8("--no-open"@),
        argument != encode_utf8("--port"@),
        argument.len() < 7 || argument.take(7) != encode_utf8("--port="@),
    ensures
        asked_for(seq![argument] + rest, settled) == Err::<ActionView, Seq<char>>(
            "unexpected argument '"@ + shown(argument) + "'"@,
        ),
{
    lemma_option_bytes();
    lemma_first(argument, rest);
    assert(argument.take(1) =~= encode_utf8("-"@));
}

/// A port that is not text is refused without a word on what is expected, and behind `--port=` it
/// makes the whole argument one that is not known.
pub proof fn law_ports_are_text(value: Seq<u8>, rest: Seq<Seq<u8>>, settled: Settled)
    requires
        !settled.positional_only,
        !valid_utf8(value),
    ensures
        asked_for(seq![encode_utf8("--port"@)] + (seq![value] + rest), settled) == Err::<
            ActionView,
            Seq<char>,
        >("invalid port '"@ + shown(value) + "'"@),
        !valid_utf8(encode_utf8("--port="@) + value) ==> asked_for(
            seq![encode_utf8("--port="@) + value] + rest,
            settled,
        ) == Err::<ActionView, Seq<char>>(
            "unexpected argument '"@ + shown(encode_utf8("--port="@) + value) + "'"@,
        ),
{
    lemma_options();
    lemma_option_bytes();
    let port = encode_utf8("--port"@);
    lemma_first(port, seq![value] + rest);
    lemma_first(value, rest);
    let whole = encode_utf8("--port="@) + value;
    lemma_first(whole, rest);
    assert(whole[0] == 45 && whole[2] == 112 && whole[6] == 61);
    assert(whole.take(1) =~= encode_utf8("-"@));
}

/// What is said of bytes that are text is that text.
pub proof fn law_text_is_shown_as_it_is(text: Seq<char>)
    ensures
        shown(encode_utf8(text)) == text,
{
    vstd::utf8::encode_utf8_decode_utf8(text);
    vstd::utf8::encode_utf8_valid_utf8(text);
}

// ---------------------------------------------------------------------------
// Numbers
// ---------------------------------------------------------------------------

/// A port is read digit by digit, from the left, and is refused from 65536 on. A plus sign may stand
/// before it, and nothing but digits may stand in it.
pub proof fn law_ports_are_read_digit_by_digit(before: Seq<char>, c: char, n: nat)
    requires
        before.len() > 0 ==> before[0] != '+',
        before.len() > 0 ==> all_digits(before) && decimal_value(before) == n,
        before.len() == 0 ==> n == 0,
    ensures
        '0' <= c <= '9' && 10 * n + (c as int - 48) < 65536 ==> port_value(before.push(c)) == Some(
            (10 * n + (c as int - 48)) as u16,
        ),
        '0' <= c <= '9' && 10 * n + (c as int - 48) >= 65536 ==> port_value(before.push(c)) is None,
        !('0' <= c <= '9') ==> port_value(before.push(c)) is None,
        port_value(before) == (if before.len() > 0 && n < 65536 {
            Some(n as u16)
        } else {
            None
        }),
        port_value(seq!['+'] + before) == port_value(before),
{
    let all = before.push(c);
    assert(all.drop_last() =~= before);
    assert(all.last() == c);
    assert((seq!['+'] + before).drop_first() =~= before);
    if before.len() == 0 {
        assert(decimal_value(before) == 0);
        if c == '+' {
            assert(all.drop_first().len() == 0);
        }
    } else {
        assert(all[0] == before[0]);
    }
    assert(all[all.len() - 1] == c);
    if '0' <= c <= '9' {
        assert(all_digits(all)) by {
            assert forall|i: int| 0 <= i < all.len() implies is_digit(#[trigger] all[i]) by {
                if i < before.len() {
                    assert(all[i] == before[i]);
                }
            }
        }
        assert(decimal_value(all) == decimal_value(before) * 10 + (c as nat - '0' as nat) as nat);
    } else {
        assert(!is_digit(all[all.len() - 1]));
    }
}

/// A number is written with its decimal digits.
pub proof fn law_numbers_are_written_in_decimal(n: nat, digit: nat)
    requires
        digit < 10,
    ensures
        decimal_text(digit).len() == 1,
        decimal_text(digit)[0] as int == 48 + digit,
        n > 0 ==> decimal_text(10 * n + digit) == decimal_text(n) + decimal_text(digit),
{
    assert(decimal_text(digit)[0] == (48 + digit) as u8 as char);
    if n > 0 {
        let all = 10 * n + digit;
        assert(all / 10 == n && all % 10 == digit);
        assert(decimal_text(all) =~= decimal_text(n) + decimal_text(digit));
    }
}

// ---------------------------------------------------------------------------
// What is said
// ---------------------------------------------------------------------------

/// Two lines sum a library up: where it lies, and how many repositories and documents it holds.
pub proof fn law_libraries_are_summed_up(c: CatalogView, root: Seq<char>)
    requires
        c.root == encode_utf8(root),
    ensures
        summary(c).len() == 2,
        summary(c)[0] == "mdfolio  "@ + root,
        summary(c)[1] == decimal_text(c.repositories.len()) + " repositories · "@ + decimal_text(
            c.documents.len(),
        ) + " pages"@,
{
    law_text_is_shown_as_it_is(root);
}

/// A warning says what went wrong, and where, if that is known.
pub proof fn law_warnings_say_what_and_where(path: Seq<char>, message: Seq<char>)
    ensures
        warning(DiagnosticView { path: Some(encode_utf8(path)), message }) == "warning: "@ + path
            + ": "@ + message,
        warning(DiagnosticView { path: None, message }) == "warning: "@ + message,
{
    law_text_is_shown_as_it_is(path);
}

} // verus!
