//! The command line: what the arguments ask for, and what is said at the start.

use vstd::prelude::*;
use vstd::utf8::{decode_utf8, encode_utf8, valid_utf8};
use crate::catalog::{
    diagnostic_views, document_views, repository_views, Catalog, CatalogDiagnostic, CatalogView,
    DiagnosticView, Document, Repository,
};
use crate::paths::{show, shown};
use crate::text::{begins_with, bytes_eq, chars_of, copy_of, text_from_utf8, text_of, text_views};

verus! {

broadcast use vstd::string::group_string_axioms;

/// What to run.
#[derive(Debug, PartialEq, Eq)]
pub struct Cli {
    pub path: Vec<u8>,
    pub no_open: bool,
    pub port: u16,
}

/// What the arguments ask for.
#[derive(Debug, PartialEq, Eq)]
pub enum CliAction {
    Run(Cli),
    Help,
    Version,
}

/// What is wrong with the arguments.
#[derive(Debug, PartialEq, Eq)]
pub struct CliError(pub String);

impl CliError {
    /// The error in words.
    #[must_use]
    pub fn message(&self) -> (res: &str)
        ensures
            res@ == self.0@,
    {
        self.0.as_str()
    }
}

/// What the arguments ask for.
pub enum ActionView {
    Run { path: Seq<u8>, no_open: bool, port: u16 },
    Help,
    Version,
}

impl View for CliAction {
    type V = ActionView;

    open spec fn view(&self) -> ActionView {
        match self {
            CliAction::Run(cli) => ActionView::Run {
                path: cli.path@,
                no_open: cli.no_open,
                port: cli.port,
            },
            CliAction::Help => ActionView::Help,
            CliAction::Version => ActionView::Version,
        }
    }
}

// ---------------------------------------------------------------------------
// Ports
// ---------------------------------------------------------------------------

/// Whether a character is a decimal digit.
pub open spec fn is_digit(c: char) -> bool {
    '0' <= c <= '9'
}

/// The number that decimal digits stand for.
pub open spec fn decimal_value(digits: Seq<char>) -> nat
    decreases digits.len(),
{
    if digits.len() == 0 {
        0
    } else {
        decimal_value(digits.drop_last()) * 10 + (digits.last() as nat - '0' as nat) as nat
    }
}

/// Text without the plus sign before it.
pub open spec fn unsigned_text(text: Seq<char>) -> Seq<char> {
    if text.len() > 0 && text[0] == '+' {
        text.drop_first()
    } else {
        text
    }
}

/// Whether text is made of decimal digits.
pub open spec fn all_digits(text: Seq<char>) -> bool {
    forall|i: int| 0 <= i < text.len() ==> is_digit(#[trigger] text[i])
}

/// The port that text stands for: decimal digits, with a plus sign before them or not, for a
/// number below 65536.
pub open spec fn port_value(text: Seq<char>) -> Option<u16> {
    let digits = unsigned_text(text);
    if digits.len() > 0 && all_digits(digits) && decimal_value(digits) < 65536 {
        Some(decimal_value(digits) as u16)
    } else {
        None
    }
}

/// The first digits of a number are no larger than the number.
proof fn lemma_decimal_prefix(digits: Seq<char>, k: int)
    requires
        0 <= k <= digits.len(),
    ensures
        decimal_value(digits.take(k)) <= decimal_value(digits),
    decreases digits.len() - k,
{
    if k < digits.len() {
        lemma_decimal_prefix(digits, k + 1);
        assert(digits.take(k + 1).drop_last() =~= digits.take(k));
    } else {
        assert(digits.take(k) =~= digits);
    }
}

/// The port that text stands for.
fn read_port(text: &str) -> (res: Option<u16>)
    ensures
        res == port_value(text@),
{
    let chars: Vec<char> = chars_of(text);
    let start: usize = if chars.len() > 0 && chars[0] == '+' {
        1
    } else {
        0
    };
    let ghost digits = chars@.skip(start as int);
    assert(digits =~= unsigned_text(text@));
    if start == chars.len() {
        return None;
    }
    let mut value: u32 = 0;
    let mut i: usize = start;
    assert(digits.take(0) =~= Seq::empty());
    while i < chars.len()
        invariant
            start <= i <= chars.len(),
            digits == chars@.skip(start as int),
            forall|j: int| 0 <= j < i - start ==> is_digit(#[trigger] digits[j]),
            value < 65536,
            value == decimal_value(digits.take(i - start)),
            digits == unsigned_text(text@),
        decreases chars.len() - i,
    {
        let c: char = chars[i];
        assert(digits[i - start] == c);
        if !('0' <= c && c <= '9') {
            assert(!is_digit(digits[i - start]));
            return None;
        }
        let digit: u32 = c as u32 - '0' as u32;
        assert(digits.take(i - start + 1).drop_last() =~= digits.take(i - start));
        value = value * 10 + digit;
        proof {
            lemma_decimal_prefix(digits, i - start + 1);
        }
        if value > 65535 {
            return None;
        }
        i += 1;
    }
    assert(digits.take(i - start) =~= digits);
    Some(value as u16)
}

/// What is said of a port that is none.
pub open spec fn port_error(value: Seq<u8>) -> Seq<char> {
    let start = "invalid port '"@ + shown(value) + "'"@;
    if valid_utf8(value) {
        start + " (expected 0 through 65535)"@
    } else {
        start
    }
}

/// The port that an argument stands for.
pub open spec fn port_of(value: Seq<u8>) -> Option<u16> {
    if valid_utf8(value) {
        port_value(decode_utf8(value))
    } else {
        None
    }
}

/// The port that an argument stands for.
pub fn parse_port(value: &[u8]) -> (res: Result<u16, CliError>)
    ensures
        match port_of(value@) {
            Some(port) => res == Ok::<u16, CliError>(port),
            None => res matches Err(error) && error.0@ == port_error(value@),
        },
{
    let start: String = "invalid port '".to_owned().concat(show(value).as_str()).concat("'");
    match text_from_utf8(value) {
        Some(text) => match read_port(text) {
            Some(port) => Ok(port),
            None => Err(CliError(start.concat(" (expected 0 through 65535)"))),
        },
        None => Err(CliError(start)),
    }
}

// ---------------------------------------------------------------------------
// Arguments
// ---------------------------------------------------------------------------

/// What an argument is.
pub enum Argument {
    Separator,
    Help,
    Version,
    NoOpen,
    Port,
    PortIs(Seq<u8>),
    Unknown,
    Path,
}

/// What an argument is, as long as options may follow.
pub open spec fn argument_of(argument: Seq<u8>) -> Argument {
    if argument == encode_utf8("--"@) {
        Argument::Separator
    } else if argument == encode_utf8("-h"@) || argument == encode_utf8("--help"@) {
        Argument::Help
    } else if argument == encode_utf8("-V"@) || argument == encode_utf8("--version"@) {
        Argument::Version
    } else if argument == encode_utf8("--no-open"@) {
        Argument::NoOpen
    } else if argument == encode_utf8("--port"@) {
        Argument::Port
    } else if valid_utf8(argument) && begins_with(argument, encode_utf8("--port="@)) {
        Argument::PortIs(argument.skip(encode_utf8("--port="@).len() as int))
    } else if begins_with(argument, encode_utf8("-"@)) {
        Argument::Unknown
    } else {
        Argument::Path
    }
}

/// What the arguments up to some point have settled.
pub struct Settled {
    pub path: Option<Seq<u8>>,
    pub no_open: bool,
    pub port: u16,
    pub positional_only: bool,
}

/// What is settled before the first argument.
pub open spec fn nothing_settled() -> Settled {
    Settled { path: None, no_open: false, port: 0, positional_only: false }
}

/// The current directory.
pub open spec fn current_directory() -> Seq<u8> {
    encode_utf8("."@)
}

/// What the rest of the arguments ask for, or what is wrong with them. Help and version are
/// given at once. A later option takes the place of an earlier one; a second path is refused.
/// Behind `--` there are only paths.
pub open spec fn asked_for(arguments: Seq<Seq<u8>>, settled: Settled) -> Result<
    ActionView,
    Seq<char>,
>
    decreases arguments.len(),
{
    if arguments.len() == 0 {
        Ok(
            ActionView::Run {
                path: match settled.path {
                    Some(path) => path,
                    None => current_directory(),
                },
                no_open: settled.no_open,
                port: settled.port,
            },
        )
    } else {
        let first = arguments[0];
        let rest = arguments.drop_first();
        let argument = if settled.positional_only {
            Argument::Path
        } else {
            argument_of(first)
        };
        match argument {
            Argument::Separator => asked_for(rest, Settled { positional_only: true, ..settled }),
            Argument::Help => Ok(ActionView::Help),
            Argument::Version => Ok(ActionView::Version),
            Argument::NoOpen => asked_for(rest, Settled { no_open: true, ..settled }),
            Argument::Port => if rest.len() == 0 {
                Err("--port requires a value"@)
            } else {
                match port_of(rest[0]) {
                    Some(port) => asked_for(rest.drop_first(), Settled { port, ..settled }),
                    None => Err(port_error(rest[0])),
                }
            },
            Argument::PortIs(value) => match port_of(value) {
                Some(port) => asked_for(rest, Settled { port, ..settled }),
                None => Err(port_error(value)),
            },
            Argument::Unknown => Err("unexpected argument '"@ + shown(first) + "'"@),
            Argument::Path => if settled.path is Some {
                Err("unexpected second path '"@ + shown(first) + "'"@)
            } else {
                asked_for(rest, Settled { path: Some(first), ..settled })
            },
        }
    }
}

/// Whether an argument is a word.
fn is_argument(argument: &[u8], word: &str) -> (res: bool)
    ensures
        res == (argument@ == encode_utf8(word@)),
{
    bytes_eq(argument, word.as_bytes())
}

/// What follows a prefix of an argument.
fn behind_prefix<'a>(argument: &'a [u8], prefix: &str) -> (res: Option<&'a [u8]>)
    ensures
        res is Some <==> begins_with(argument@, encode_utf8(prefix@)),
        res matches Some(rest) ==> rest@ == argument@.skip(encode_utf8(prefix@).len() as int),
{
    let prefix: &[u8] = prefix.as_bytes();
    if argument.len() < prefix.len() {
        return None;
    }
    let head: &[u8] = vstd::slice::slice_subrange(argument, 0, prefix.len());
    assert(head@ =~= argument@.take(prefix@.len() as int));
    if bytes_eq(head, prefix) {
        let rest: &[u8] = vstd::slice::slice_subrange(argument, prefix.len(), argument.len());
        assert(rest@ =~= argument@.skip(prefix@.len() as int));
        Some(rest)
    } else {
        None
    }
}

/// An argument that is refused.
fn refused(start: &str, argument: &[u8]) -> (res: CliError)
    ensures
        res.0@ == start@ + shown(argument@) + "'"@,
{
    CliError(start.to_owned().concat(show(argument).as_str()).concat("'"))
}

/// The bytes of arguments.
pub open spec fn argument_views(arguments: Seq<Vec<u8>>) -> Seq<Seq<u8>> {
    arguments.map_values(|argument: Vec<u8>| argument@)
}

/// What the arguments ask for.
pub fn parse_args(arguments: &Vec<Vec<u8>>) -> (res: Result<CliAction, CliError>)
    ensures
        match asked_for(argument_views(arguments@), nothing_settled()) {
            Ok(action) => res matches Ok(found) && found@ == action,
            Err(reason) => res matches Err(error) && error.0@ == reason,
        },
{
    let ghost views = argument_views(arguments@);
    let ghost goal = asked_for(views, nothing_settled());
    let mut path: Option<Vec<u8>> = None;
    let mut no_open: bool = false;
    let mut port: u16 = 0;
    let mut positional_only: bool = false;
    let mut i: usize = 0;
    assert(views.skip(0) =~= views);
    while i < arguments.len()
        invariant
            i <= arguments.len(),
            views == argument_views(arguments@),
            goal == asked_for(views, nothing_settled()),
            goal == asked_for(
                views.skip(i as int),
                Settled {
                    path: (match path {
                        Some(path) => Some(path@),
                        None => None,
                    }),
                    no_open,
                    port,
                    positional_only,
                },
            ),
        decreases arguments.len() - i,
    {
        let argument: &[u8] = arguments[i].as_slice();
        proof {
            assert(views.skip(i as int)[0] == argument@);
            assert(views.skip(i as int).drop_first() =~= views.skip(i + 1));
        }
        if !positional_only {
            if is_argument(argument, "--") {
                positional_only = true;
                i += 1;
                continue;
            }
            if is_argument(argument, "-h") || is_argument(argument, "--help") {
                return Ok(CliAction::Help);
            }
            if is_argument(argument, "-V") || is_argument(argument, "--version") {
                return Ok(CliAction::Version);
            }
            if is_argument(argument, "--no-open") {
                no_open = true;
                i += 1;
                continue;
            }
            if is_argument(argument, "--port") {
                if i + 1 == arguments.len() {
                    return Err(CliError("--port requires a value".to_owned()));
                }
                proof {
                    assert(views.skip(i + 1)[0] == arguments@[i + 1]@);
                    assert(views.skip(i + 1).drop_first() =~= views.skip(i + 2));
                }
                match parse_port(arguments[i + 1].as_slice()) {
                    Ok(value) => {
                        port = value;
                    },
                    Err(error) => {
                        return Err(error);
                    },
                }
                i += 2;
                continue;
            }
            if text_from_utf8(argument).is_some() {
                if let Some(value) = behind_prefix(argument, "--port=") {
                    match parse_port(value) {
                        Ok(value) => {
                            port = value;
                        },
                        Err(error) => {
                            return Err(error);
                        },
                    }
                    i += 1;
                    continue;
                }
            }
            if behind_prefix(argument, "-").is_some() {
                return Err(refused("unexpected argument '", argument));
            }
        }
        if path.is_some() {
            return Err(refused("unexpected second path '", argument));
        }
        path = Some(copy_of(argument));
        i += 1;
    }
    assert(views.skip(i as int) =~= Seq::empty());
    let path: Vec<u8> = match path {
        Some(path) => path,
        None => copy_of(".".as_bytes()),
    };
    Ok(CliAction::Run(Cli { path, no_open, port }))
}

// ---------------------------------------------------------------------------
// What is said at the start
// ---------------------------------------------------------------------------

/// The decimal digits of a number.
pub open spec fn decimal_text(n: nat) -> Seq<char>
    decreases n,
{
    if n < 10 {
        seq![(48 + n) as u8 as char]
    } else {
        decimal_text(n / 10).push((48 + n % 10) as u8 as char)
    }
}

/// The decimal digits of a number.
fn show_number(n: usize) -> (res: String)
    ensures
        res@ == decimal_text(n as nat),
    decreases n,
{
    let digit: String = text_of(&[(48 + (n % 10) as u8) as char]);
    if n < 10 {
        assert(digit@ =~= decimal_text(n as nat));
        digit
    } else {
        let before: String = show_number(n / 10);
        let all: String = before.concat(digit.as_str());
        assert(all@ =~= decimal_text(n as nat));
        all
    }
}

/// What is said of a library: where it lies, and how much it holds.
pub open spec fn summary(c: CatalogView) -> Seq<Seq<char>> {
    seq![
        "mdfolio  "@ + shown(c.root),
        decimal_text(c.repositories.len()) + " repositories · "@ + decimal_text(c.documents.len())
            + " pages"@,
    ]
}

/// What is said of a library: where it lies, and how much it holds.
#[must_use]
pub fn catalog_summary(catalog: &Catalog) -> (res: Vec<String>)
    ensures
        text_views(res@) == summary(catalog@),
{
    let repositories: &[Repository] = catalog.repositories();
    let documents: &[Document] = catalog.documents();
    proof {
        assert(repository_views(repositories@).len() == repositories@.len());
        assert(document_views(documents@).len() == documents@.len());
    }
    let place: String = "mdfolio  ".to_owned().concat(show(catalog.root()).as_str());
    let size: String = show_number(repositories.len()).concat(" repositories · ").concat(
        show_number(documents.len()).as_str(),
    ).concat(" pages");
    let lines: Vec<String> = vec![place, size];
    assert(text_views(lines@) =~= summary(catalog@));
    lines
}

/// What is said of something that went wrong during the scan.
pub open spec fn warning(diagnostic: DiagnosticView) -> Seq<char> {
    match diagnostic.path {
        Some(path) => "warning: "@ + shown(path) + ": "@ + diagnostic.message,
        None => "warning: "@ + diagnostic.message,
    }
}

/// What is said of everything that went wrong during the scan.
#[must_use]
pub fn catalog_warnings(catalog: &Catalog) -> (res: Vec<String>)
    ensures
        text_views(res@) == catalog@.diagnostics.map_values(
            |diagnostic: DiagnosticView| warning(diagnostic),
        ),
{
    let diagnostics: &[CatalogDiagnostic] = catalog.diagnostics();
    let ghost views = diagnostic_views(diagnostics@);
    let ghost all = views.map_values(|diagnostic: DiagnosticView| warning(diagnostic));
    let mut lines: Vec<String> = Vec::new();
    let mut i: usize = 0;
    while i < diagnostics.len()
        invariant
            i <= diagnostics.len(),
            views == diagnostic_views(diagnostics@),
            all == views.map_values(|diagnostic: DiagnosticView| warning(diagnostic)),
            text_views(lines@) =~= all.take(i as int),
        decreases diagnostics.len() - i,
    {
        let diagnostic: &CatalogDiagnostic = &diagnostics[i];
        assert(views[i as int] == diagnostic@);
        let line: String = match &diagnostic.path {
            Some(path) => "warning: ".to_owned().concat(show(path.as_slice()).as_str()).concat(
                ": ",
            ).concat(diagnostic.message.as_str()),
            None => "warning: ".to_owned().concat(diagnostic.message.as_str()),
        };
        let ghost before = lines@;
        lines.push(line);
        assert(text_views(lines@) =~= text_views(before).push(
            line@,
        ));
        assert(all.take(i + 1) =~= all.take(i as int).push(all[i as int]));
        i += 1;
    }
    assert(all.take(i as int) =~= all);
    lines
}

} // verus!
