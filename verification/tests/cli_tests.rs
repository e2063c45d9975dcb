use mdfolio::assembly::{RootInspection, WalkEntry};
use mdfolio::catalog::Catalog;
use mdfolio::cli::{
    catalog_summary, catalog_warnings, parse_args, parse_port, Cli, CliAction, CliError,
};
use mdfolio::discovery::{EntryKind, WalkError};
use mdfolio::paths::LibraryPath;
use mdfolio::walk::Walk;

fn parse(args: &[&str]) -> Result<CliAction, String> {
    let args: Vec<Vec<u8>> = args.iter().map(|arg| arg.as_bytes().to_vec()).collect();
    parse_args(&args).map_err(|error| error.message().to_owned())
}

fn run(path: &str, no_open: bool, port: u16) -> Result<CliAction, String> {
    Ok(CliAction::Run(Cli { path: path.as_bytes().to_vec(), no_open, port }))
}

#[test]
fn defaults_to_the_current_directory_and_an_available_port() {
    assert_eq!(parse(&[]), run(".", false, 0));
}

#[test]
fn accepts_documented_flags_in_either_order_and_both_port_forms() {
    assert_eq!(parse(&["docs", "--no-open", "--port", "4040"]), run("docs", true, 4040));
    assert_eq!(parse(&["--port=0", "--no-open", "docs"]), run("docs", true, 0));
}

#[test]
fn double_dash_allows_a_path_that_starts_with_a_dash() {
    assert_eq!(parse(&["--", "-folio"]), run("-folio", false, 0));
}

#[test]
fn help_and_version_keep_short_and_long_forms() {
    assert_eq!(parse(&["-h"]), Ok(CliAction::Help));
    assert_eq!(parse(&["--help"]), Ok(CliAction::Help));
    assert_eq!(parse(&["-V"]), Ok(CliAction::Version));
    assert_eq!(parse(&["--version"]), Ok(CliAction::Version));
}

#[test]
fn rejects_invalid_ports_unknown_flags_and_multiple_paths() {
    for args in [
        &["--port"][..],
        &["--port", "nope"],
        &["--port=-1"],
        &["--port=65536"],
        &["--no-open=true"],
        &["--unknown"],
        &["first", "second"],
    ] {
        assert!(parse(args).is_err(), "{args:?}");
    }
}

#[test]
fn preserves_non_utf8_positional_paths() {
    let path = vec![b'f', 0x80];
    let parsed = parse_args(&vec![path.clone()]).unwrap();

    assert_eq!(parsed, CliAction::Run(Cli { path, no_open: false, port: 0 }));
}

#[test]
fn errors_say_what_is_wrong() {
    let error = |args: &[&str]| parse(args).unwrap_err();
    assert_eq!(error(&["--port"]), "--port requires a value");
    assert_eq!(
        error(&["--port", "nope"]),
        "invalid port 'nope' (expected 0 through 65535)"
    );
    assert_eq!(error(&["--port="]), "invalid port '' (expected 0 through 65535)");
    assert_eq!(error(&["-x"]), "unexpected argument '-x'");
    assert_eq!(error(&["a", "b"]), "unexpected second path 'b'");
    assert_eq!(error(&["a", "--", "--port"]), "unexpected second path '--port'");
    let error = parse_args(&vec![b"--port=\xff".to_vec()]).unwrap_err();
    assert_eq!(error, CliError("unexpected argument '--port=\u{fffd}'".to_owned()));
    let error = parse_args(&vec![b"--port".to_vec(), b"\xff".to_vec()]).unwrap_err();
    assert_eq!(error, CliError("invalid port '\u{fffd}'".to_owned()));
}

#[test]
fn a_later_option_takes_the_place_of_an_earlier_one() {
    assert_eq!(parse(&["--port", "1", "--port=2"]), run(".", false, 2));
    assert_eq!(parse(&["--unknown", "--help"]).unwrap_err(), "unexpected argument '--unknown'");
    assert_eq!(parse(&["--help", "--unknown"]), Ok(CliAction::Help));
    assert_eq!(parse(&["--", "--help"]), run("--help", false, 0));
    assert_eq!(parse(&[""]), run("", false, 0));
}

#[test]
fn ports_are_read_as_numbers_of_sixteen_bits() {
    for text in [
        "0", "80", "+80", "00080", "65535", "65536", "99999999999999999999", "", "+", "-0", "++1",
        "1 ", " 1", "1a", "0x10", "١", "000000000000000000000000000001",
    ] {
        assert_eq!(parse_port(text.as_bytes()).ok(), text.parse::<u16>().ok(), "{text}");
    }
    for port in 0..=u16::MAX {
        assert_eq!(parse_port(port.to_string().as_bytes()), Ok(port));
    }
}

#[test]
fn a_library_is_summed_up() {
    let entry = |name: &str| WalkEntry::Entry {
        kind: EntryKind::File,
        path: LibraryPath::parse(name).unwrap(),
        contents: Ok(Vec::new()),
    };
    let mut entries: Vec<WalkEntry> = (0..12).map(|n| entry(&format!("{n}.md"))).collect();
    entries.push(WalkEntry::Failure { error: WalkError::Other, message: "lost".to_owned() });
    entries.push(WalkEntry::Failure {
        error: WalkError::WithPath(b"/library/x".to_vec()),
        message: "denied".to_owned(),
    });
    let root = RootInspection::Found { path: b"/library".to_vec(), is_directory: true };
    let mut walk = Walk::new().with_finding(LibraryPath::empty(), false);
    for entry in entries {
        walk = walk.with_step(entry);
    }
    let catalog = Catalog::scan(b".", root, &walk).unwrap();

    assert_eq!(
        catalog_summary(&catalog),
        ["mdfolio  /library", "0 repositories · 12 pages"]
    );
    assert_eq!(
        catalog_warnings(&catalog),
        ["warning: lost", "warning: /library/x: denied"]
    );
}
