use pathbin::cli::{parse_action, usage_lines, CliAction, Command, ScanSource};

const USAGE: &str = "\
Usage: pathbin [OPTIONS] <COMMAND>

Options:
  --homebrew  Scan only Homebrew's common bin and sbin directories

Commands:
  list        List executable binaries in PATH
  where       Show where a command is located
  all         Show all matching binaries with the same name
  shadowed    Show binaries hidden by PATH priority
  duplicates  Show duplicate binary names
  broken      Show broken symlinks and missing PATH entries
  stats       Show PATH binary statistics
  doctor      Diagnose PATH-related problems
";

fn parse(arguments: &[&[u8]]) -> CliAction {
    let args: Vec<Vec<u8>> = arguments.iter().map(|a| a.to_vec()).collect();
    parse_action(&args)
}

fn usage(message: Option<&str>, exit_code: i32) -> CliAction {
    CliAction::ShowUsage { message: message.map(|m| m.to_string()), exit_code }
}

fn run(command: Command, scan_source: ScanSource) -> CliAction {
    CliAction::Execute { command, scan_source }
}

#[test]
fn usage_text_lists_the_option_and_every_command() {
    let mut text = String::new();
    for line in usage_lines() {
        text.push_str(line);
        text.push('\n');
    }
    assert_eq!(text, USAGE);
}

#[test]
fn help_and_invalid_invocations_have_explicit_streams_and_exit_codes() {
    assert_eq!(parse(&[b"--help"]), usage(None, 0));
    assert_eq!(parse(&[b"-h"]), usage(None, 0));
    assert_eq!(parse(&[b"help"]), usage(None, 0));
    assert_eq!(parse(&[b"--homebrew", b"--help"]), usage(None, 0));
    assert_eq!(parse(&[b"--help", b"--homebrew"]), usage(None, 0));
    assert_eq!(parse(&[]), usage(None, 1));
    assert_eq!(parse(&[b"unknown"]), usage(Some("Unknown command: unknown"), 1));
    assert_eq!(
        parse(&[b"--homebrew", b"--homebrew", b"list"]),
        usage(Some("Invalid arguments."), 1)
    );
    assert_eq!(
        parse(&[b"list", b"--homebrew", b"--homebrew"]),
        usage(Some("Invalid arguments."), 1)
    );
    assert_eq!(parse(&[b"where", b"--homebrew"]), usage(Some("Invalid arguments."), 1));
    assert_eq!(parse(&[b"--homebrew", b"all"]), usage(Some("Invalid arguments."), 1));
}

#[test]
fn every_public_subcommand_rejects_invalid_arity() {
    let invalid_invocations: &[&[&[u8]]] = &[
        &[b"list", b"extra"],
        &[b"where"],
        &[b"where", b"tool", b"extra"],
        &[b"all"],
        &[b"all", b"tool", b"extra"],
        &[b"shadowed", b"extra"],
        &[b"duplicates", b"extra"],
        &[b"broken", b"extra"],
        &[b"stats", b"extra"],
        &[b"doctor", b"extra"],
    ];

    for arguments in invalid_invocations {
        assert_eq!(parse(arguments), usage(Some("Invalid arguments."), 1));
    }
}

#[test]
fn every_public_subcommand_is_recognised() {
    assert_eq!(parse(&[b"list"]), run(Command::List, ScanSource::Path));
    assert_eq!(
        parse(&[b"where", b"tool"]),
        run(Command::Where { name: b"tool".to_vec() }, ScanSource::Path)
    );
    assert_eq!(
        parse(&[b"all", b"tool"]),
        run(Command::All { name: b"tool".to_vec() }, ScanSource::Path)
    );
    assert_eq!(parse(&[b"shadowed"]), run(Command::Shadowed, ScanSource::Path));
    assert_eq!(parse(&[b"duplicates"]), run(Command::Duplicates, ScanSource::Path));
    assert_eq!(parse(&[b"broken"]), run(Command::Broken, ScanSource::Path));
    assert_eq!(parse(&[b"stats"]), run(Command::Stats, ScanSource::Path));
    assert_eq!(parse(&[b"doctor"]), run(Command::Doctor, ScanSource::Path));
}

#[test]
fn homebrew_option_is_available_to_every_subcommand_in_either_position() {
    let invocations: &[(&[&[u8]], Command)] = &[
        (&[b"--homebrew", b"list"], Command::List),
        (&[b"where", b"tool", b"--homebrew"], Command::Where { name: b"tool".to_vec() }),
        (&[b"--homebrew", b"all", b"tool"], Command::All { name: b"tool".to_vec() }),
        (&[b"shadowed", b"--homebrew"], Command::Shadowed),
        (&[b"--homebrew", b"duplicates"], Command::Duplicates),
        (&[b"broken", b"--homebrew"], Command::Broken),
        (&[b"--homebrew", b"stats"], Command::Stats),
        (&[b"doctor", b"--homebrew"], Command::Doctor),
    ];

    for (arguments, command) in invocations {
        assert_eq!(parse(arguments), run(command.clone(), ScanSource::Homebrew));
    }
    assert_eq!(
        parse(&[b"where", b"--homebrew", b"tool"]),
        run(Command::Where { name: b"tool".to_vec() }, ScanSource::Homebrew)
    );
}

#[test]
fn command_values_keep_their_raw_bytes() {
    assert_eq!(
        parse(&[b"where", b"tool-\xfe"]),
        run(Command::Where { name: b"tool-\xfe".to_vec() }, ScanSource::Path)
    );
    assert_eq!(
        parse(&[b"unknown\n\x1b[31m"]),
        usage(Some("Unknown command: unknown\\n\\u{1b}[31m"), 1)
    );
    assert_eq!(parse(&[b"bad-\xff"]), usage(Some("Unknown command: bad-\\xFF"), 1));
}

#[test]
fn every_command_in_the_usage_text_is_known() {
    let lines = usage_lines();
    let commands_at = lines.iter().position(|l| *l == "Commands:").expect("a Commands: line");
    let listed: Vec<&str> = lines[commands_at + 1..]
        .iter()
        .map(|l| l.split_whitespace().next().expect("a command name"))
        .collect();
    assert_eq!(listed, ["list", "where", "all", "shadowed", "duplicates", "broken", "stats", "doctor"]);
    for name in listed {
        match parse(&[name.as_bytes()]) {
            CliAction::Execute { .. } => {}
            CliAction::ShowUsage { message, exit_code } => {
                assert_eq!(message.as_deref(), Some("Invalid arguments."), "{name}");
                assert_eq!(exit_code, 1);
            }
        }
    }
}
