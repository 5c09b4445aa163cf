use vstd::prelude::*;
use vstd::string::StringSliceAdditionalSpecFns;
use vstd::utf8::{is_ascii_chars, is_ascii_chars_encode_utf8};
use crate::bytes::bytes_equal;
use crate::model::{byte_strings, copy_bytes};
use crate::output::{render_os, rendered_os};

verus! {

/// A subcommand with its argument.
#[derive(Debug, Clone, PartialEq, Eq)]
pub enum Command {
    List,
    Where { name: Vec<u8> },
    All { name: Vec<u8> },
    Shadowed,
    Duplicates,
    Broken,
    Stats,
    Doctor,
}

/// A subcommand, its argument as bytes.
pub enum CommandView {
    List,
    Where(Seq<u8>),
    All(Seq<u8>),
    Shadowed,
    Duplicates,
    Broken,
    Stats,
    Doctor,
}

impl View for Command {
    type V = CommandView;

    open spec fn view(&self) -> CommandView {
        match self {
            Command::List => CommandView::List,
            Command::Where { name } => CommandView::Where(name@),
            Command::All { name } => CommandView::All(name@),
            Command::Shadowed => CommandView::Shadowed,
            Command::Duplicates => CommandView::Duplicates,
            Command::Broken => CommandView::Broken,
            Command::Stats => CommandView::Stats,
            Command::Doctor => CommandView::Doctor,
        }
    }
}

/// Which directories a command looks at.
#[derive(Debug, Clone, Copy, PartialEq, Eq, Structural)]
pub enum ScanSource {
    /// The directories of the search list.
    Path,
    /// Homebrew's `bin` and `sbin` directories only.
    Homebrew,
}

/// What the command line asks for.
#[derive(Debug, Clone, PartialEq, Eq)]
pub enum CliAction {
    /// Run a command over the given directories.
    Execute { command: Command, scan_source: ScanSource },
    /// Print an optional message and the usage text to standard error, then
    /// exit with the given code.
    ShowUsage { message: Option<String>, exit_code: i32 },
}

/// What the command line asks for, its texts as characters.
pub enum ActionView {
    Execute(CommandView, ScanSource),
    ShowUsage(Option<Seq<char>>, i32),
}

impl View for CliAction {
    type V = ActionView;

    open spec fn view(&self) -> ActionView {
        match self {
            CliAction::Execute { command, scan_source } => ActionView::Execute(command@, *scan_source),
            CliAction::ShowUsage { message, exit_code } => ActionView::ShowUsage(
                match message {
                    Some(m) => Some(m@),
                    None => None,
                },
                *exit_code,
            ),
        }
    }
}

/// The option that restricts a scan to Homebrew's directories.
pub open spec fn homebrew_flag() -> Seq<u8> {
    "--homebrew".spec_bytes()
}

/// The arguments other than the Homebrew option, in order.
pub open spec fn operands(args: Seq<Seq<u8>>) -> Seq<Seq<u8>>
    decreases args.len(),
{
    if args.len() == 0 {
        args
    } else if args.last() == homebrew_flag() {
        operands(args.drop_last())
    } else {
        operands(args.drop_last()).push(args.last())
    }
}

/// How many times the Homebrew option is given.
pub open spec fn flag_count(args: Seq<Seq<u8>>) -> nat
    decreases args.len(),
{
    if args.len() == 0 {
        0
    } else if args.last() == homebrew_flag() {
        flag_count(args.drop_last()) + 1
    } else {
        flag_count(args.drop_last())
    }
}

/// Whether an argument asks for help.
pub open spec fn is_help(arg: Seq<u8>) -> bool {
    arg == "-h".spec_bytes() || arg == "--help".spec_bytes() || arg == "help".spec_bytes()
}

/// The answer to a malformed command line.
pub open spec fn invalid_arguments_view() -> ActionView {
    ActionView::ShowUsage(Some("Invalid arguments."@), 1)
}

/// A command that takes no argument, if nothing else follows it.
pub open spec fn no_extra_args(rest: Seq<Seq<u8>>, command: CommandView, source: ScanSource) -> ActionView {
    if rest.len() == 1 {
        ActionView::Execute(command, source)
    } else {
        invalid_arguments_view()
    }
}

/// What the command line asks for. The Homebrew option may stand anywhere,
/// at most once; help is given when the first other argument asks for it,
/// and the usage text with exit code 1 when there is no other argument.
pub open spec fn parsed_action(args: Seq<Seq<u8>>) -> ActionView {
    let rest = operands(args);
    let n = flag_count(args);
    if rest.len() == 0 {
        ActionView::ShowUsage(None, 1)
    } else if is_help(rest[0]) {
        ActionView::ShowUsage(None, 0)
    } else if n > 1 {
        invalid_arguments_view()
    } else {
        let source = if n == 1 {
            ScanSource::Homebrew
        } else {
            ScanSource::Path
        };
        let c = rest[0];
        if c == "list".spec_bytes() {
            no_extra_args(rest, CommandView::List, source)
        } else if c == "where".spec_bytes() {
            if rest.len() == 2 {
                ActionView::Execute(CommandView::Where(rest[1]), source)
            } else {
                invalid_arguments_view()
            }
        } else if c == "all".spec_bytes() {
            if rest.len() == 2 {
                ActionView::Execute(CommandView::All(rest[1]), source)
            } else {
                invalid_arguments_view()
            }
        } else if c == "shadowed".spec_bytes() {
            no_extra_args(rest, CommandView::Shadowed, source)
        } else if c == "duplicates".spec_bytes() {
            no_extra_args(rest, CommandView::Duplicates, source)
        } else if c == "broken".spec_bytes() {
            no_extra_args(rest, CommandView::Broken, source)
        } else if c == "stats".spec_bytes() {
            no_extra_args(rest, CommandView::Stats, source)
        } else if c == "doctor".spec_bytes() {
            no_extra_args(rest, CommandView::Doctor, source)
        } else {
            ActionView::ShowUsage(Some("Unknown command: "@ + rendered_os(c)), 1)
        }
    }
}

fn invalid_arguments() -> (action: CliAction)
    ensures
        action@ == invalid_arguments_view(),
{
    CliAction::ShowUsage { message: Some(String::from_str("Invalid arguments.")), exit_code: 1 }
}

fn expect_no_extra_args(count: usize, command: Command, scan_source: ScanSource) -> (action: CliAction)
    ensures
        action@ == if count == 1 {
            ActionView::Execute(command@, scan_source)
        } else {
            invalid_arguments_view()
        },
{
    if count == 1 {
        CliAction::Execute { command, scan_source }
    } else {
        invalid_arguments()
    }
}

fn expect_one_value_arg(args: &[Vec<u8>], rest: &Vec<usize>, is_where: bool, scan_source: ScanSource) -> (action: CliAction)
    requires
        forall|i: int| 0 <= i < rest@.len() ==> rest@[i] < args@.len(),
    ensures
        action@ == if rest@.len() == 2 {
            ActionView::Execute(
                if is_where {
                    CommandView::Where(args@[rest@[1] as int]@)
                } else {
                    CommandView::All(args@[rest@[1] as int]@)
                },
                scan_source,
            )
        } else {
            invalid_arguments_view()
        },
{
    if rest.len() == 2 {
        let name = copy_bytes(&args[rest[1]]);
        let command = if is_where {
            Command::Where { name }
        } else {
            Command::All { name }
        };
        CliAction::Execute { command, scan_source }
    } else {
        invalid_arguments()
    }
}

fn is_word(arg: &[u8], word: &str) -> (r: bool)
    ensures
        r == (arg@ == word.spec_bytes()),
{
    bytes_equal(arg, word.as_bytes())
}

/// Reads the command line (the arguments after the program name, as the
/// platform's raw bytes) into the action it asks for.
pub fn parse_action(args: &[Vec<u8>]) -> (action: CliAction)
    ensures
        action@ == parsed_action(byte_strings(args@)),
{
    let ghost all = byte_strings(args@);
    let mut rest: Vec<usize> = Vec::new();
    let mut flags: usize = 0;
    let mut i: usize = 0;
    assert(all.take(0) =~= Seq::<Seq<u8>>::empty());
    while i < args.len()
        invariant
            all == byte_strings(args@),
            i <= args@.len(),
            flags <= i,
            flags == flag_count(all.take(i as int)),
            forall|j: int| 0 <= j < rest@.len() ==> rest@[j] < i,
            rest@.map_values(|j: usize| all[j as int]) == operands(all.take(i as int)),
        decreases args@.len() - i,
    {
        assert(all.take(i + 1).drop_last() =~= all.take(i as int));
        assert(all[i as int] == args@[i as int]@);
        let ghost before = rest@;
        if is_word(args[i].as_slice(), "--homebrew") {
            flags = flags + 1;
        } else {
            rest.push(i);
            assert(rest@.map_values(|j: usize| all[j as int]) =~= before.map_values(|j: usize| all[j as int]).push(all[i as int]));
        }
        i = i + 1;
    }
    assert(all.take(i as int) =~= all);
    let ghost ops = operands(all);
    assert(ops.len() == rest@.len());
    if rest.len() == 0 {
        return CliAction::ShowUsage { message: None, exit_code: 1 };
    }
    let first = args[rest[0]].as_slice();
    assert(first@ == ops[0]);
    if is_word(first, "-h") || is_word(first, "--help") || is_word(first, "help") {
        return CliAction::ShowUsage { message: None, exit_code: 0 };
    }
    if flags > 1 {
        return invalid_arguments();
    }
    let scan_source = if flags == 1 {
        ScanSource::Homebrew
    } else {
        ScanSource::Path
    };
    proof {
        if ops.len() == 2 {
            assert(ops[1] == args@[rest@[1] as int]@);
        }
    }
    if is_word(first, "list") {
        expect_no_extra_args(rest.len(), Command::List, scan_source)
    } else if is_word(first, "where") {
        expect_one_value_arg(args, &rest, true, scan_source)
    } else if is_word(first, "all") {
        expect_one_value_arg(args, &rest, false, scan_source)
    } else if is_word(first, "shadowed") {
        expect_no_extra_args(rest.len(), Command::Shadowed, scan_source)
    } else if is_word(first, "duplicates") {
        expect_no_extra_args(rest.len(), Command::Duplicates, scan_source)
    } else if is_word(first, "broken") {
        expect_no_extra_args(rest.len(), Command::Broken, scan_source)
    } else if is_word(first, "stats") {
        expect_no_extra_args(rest.len(), Command::Stats, scan_source)
    } else if is_word(first, "doctor") {
        expect_no_extra_args(rest.len(), Command::Doctor, scan_source)
    } else {
        let mut message = String::from_str("Unknown command: ");
        let rendered = render_os(first);
        message.append(rendered.as_str());
        CliAction::ShowUsage { message: Some(message), exit_code: 1 }
    }
}

/// The usage text, one line per element.
pub open spec fn usage_text() -> Seq<Seq<char>> {
    seq![
        "Usage: pathbin [OPTIONS] <COMMAND>"@,
        ""@,
        "Options:"@,
        "  --homebrew  Scan only Homebrew's common bin and sbin directories"@,
        ""@,
        "Commands:"@,
        "  list        List executable binaries in PATH"@,
        "  where       Show where a command is located"@,
        "  all         Show all matching binaries with the same name"@,
        "  shadowed    Show binaries hidden by PATH priority"@,
        "  duplicates  Show duplicate binary names"@,
        "  broken      Show broken symlinks and missing PATH entries"@,
        "  stats       Show PATH binary statistics"@,
        "  doctor      Diagnose PATH-related problems"@,
    ]
}

/// The usage text, one line per element.
pub fn usage_lines() -> (lines: Vec<&'static str>)
    ensures
        lines@.map_values(|l: &str| l@) == usage_text(),
{
    let mut lines: Vec<&'static str> = Vec::new();
    lines.push("Usage: pathbin [OPTIONS] <COMMAND>");
    lines.push("");
    lines.push("Options:");
    lines.push("  --homebrew  Scan only Homebrew's common bin and sbin directories");
    lines.push("");
    lines.push("Commands:");
    lines.push("  list        List executable binaries in PATH");
    lines.push("  where       Show where a command is located");
    lines.push("  all         Show all matching binaries with the same name");
    lines.push("  shadowed    Show binaries hidden by PATH priority");
    lines.push("  duplicates  Show duplicate binary names");
    lines.push("  broken      Show broken symlinks and missing PATH entries");
    lines.push("  stats       Show PATH binary statistics");
    lines.push("  doctor      Diagnose PATH-related problems");
    assert(lines@.map_values(|l: &str| l@) =~= usage_text());
    lines
}

/// The same action, with a command run over Homebrew's directories.
pub open spec fn over_homebrew(a: ActionView) -> ActionView {
    match a {
        ActionView::Execute(c, _) => ActionView::Execute(c, ScanSource::Homebrew),
        ActionView::ShowUsage(m, code) => ActionView::ShowUsage(m, code),
    }
}

proof fn lemma_insert_flag(args: Seq<Seq<u8>>, k: int)
    requires
        0 <= k <= args.len(),
    ensures
        operands(args.insert(k, homebrew_flag())) == operands(args),
        flag_count(args.insert(k, homebrew_flag())) == flag_count(args) + 1,
    decreases args.len(),
{
    let ins = args.insert(k, homebrew_flag());
    if k == args.len() {
        assert(ins.drop_last() =~= args);
    } else {
        assert(ins.drop_last() =~= args.drop_last().insert(k, homebrew_flag()));
        assert(ins.last() == args.last());
        lemma_insert_flag(args.drop_last(), k);
    }
}

/// The Homebrew option may stand anywhere on a command line: given once, at
/// any place, it runs the same command over Homebrew's directories, and it
/// changes nothing else.
pub proof fn law_homebrew_option_anywhere(args: Seq<Seq<u8>>, k: int)
    requires
        flag_count(args) == 0,
        0 <= k <= args.len(),
    ensures
        parsed_action(args.insert(k, homebrew_flag())) == over_homebrew(parsed_action(args)),
{
    lemma_insert_flag(args, k);
}

/// A command line that gives the Homebrew option more than once runs no command.
pub proof fn law_repeated_option_runs_nothing(args: Seq<Seq<u8>>)
    requires
        flag_count(args) > 1,
    ensures
        parsed_action(args) is ShowUsage,
{
}

/// The names of the commands, in the order the usage text lists them.
pub open spec fn command_names() -> Seq<&'static str> {
    seq!["list", "where", "all", "shadowed", "duplicates", "broken", "stats", "doctor"]
}

proof fn lemma_ascii_word(s: &str)
    requires
        is_ascii_chars(s@),
    ensures
        s.spec_bytes().len() == s@.len(),
        forall|i: int| 0 <= i < s@.len() ==> s.spec_bytes()[i] == s@[i] as u8,
{
    is_ascii_chars_encode_utf8(s@);
}

proof fn lemma_command_words()
    ensures
        forall|k: int| 0 <= k < command_names().len() ==> !is_help(#[trigger] command_names()[k].spec_bytes()),
        forall|j: int, k: int| 0 <= j < k < command_names().len()
            ==> #[trigger] command_names()[j].spec_bytes() != #[trigger] command_names()[k].spec_bytes(),
{
    reveal_strlit("list");
    reveal_strlit("where");
    reveal_strlit("all");
    reveal_strlit("shadowed");
    reveal_strlit("duplicates");
    reveal_strlit("broken");
    reveal_strlit("stats");
    reveal_strlit("doctor");
    reveal_strlit("-h");
    reveal_strlit("--help");
    reveal_strlit("help");
    lemma_ascii_word("list");
    lemma_ascii_word("where");
    lemma_ascii_word("all");
    lemma_ascii_word("shadowed");
    lemma_ascii_word("duplicates");
    lemma_ascii_word("broken");
    lemma_ascii_word("stats");
    lemma_ascii_word("doctor");
    lemma_ascii_word("-h");
    lemma_ascii_word("--help");
    lemma_ascii_word("help");
    let names = command_names();
    assert forall|k: int| 0 <= k < names.len() implies !is_help(#[trigger] names[k].spec_bytes()) by {
        let b = names[k].spec_bytes();
        assert(b != "-h".spec_bytes()) by {
            if b.len() == 2 {
                assert(b[0] != "-h".spec_bytes()[0]);
            }
        }
        assert(b != "--help".spec_bytes()) by {
            if b.len() == 6 {
                assert(b[0] != "--help".spec_bytes()[0]);
            }
        }
        assert(b != "help".spec_bytes()) by {
            if b.len() == 4 {
                assert(b[0] != "help".spec_bytes()[0]);
            }
        }
    }
    assert forall|j: int, k: int| 0 <= j < k < names.len()
        implies #[trigger] names[j].spec_bytes() != #[trigger] names[k].spec_bytes() by {
        let a = names[j].spec_bytes();
        let b = names[k].spec_bytes();
        if a.len() == b.len() {
            assert(a[0] != b[0]);
        }
    }
}

/// The usage text lists the commands that the command line knows: after its
/// `Commands:` line come one line per command, in order, each opening with
/// two spaces, the command's name and a space; and a command line whose first
/// argument other than the Homebrew option is one of those names runs that
/// command or is refused as invalid, and is never answered as an unknown
/// command.
pub proof fn law_usage_lists_the_known_commands(k: int, args: Seq<Seq<u8>>)
    requires
        0 <= k < command_names().len(),
        operands(args).len() >= 1,
        operands(args)[0] == command_names()[k].spec_bytes(),
    ensures
        usage_text().len() == 6 + command_names().len(),
        usage_text()[5] == "Commands:"@,
        usage_text()[6 + k].take(command_names()[k]@.len() + 3int) == "  "@ + command_names()[k]@ + " "@,
        parsed_action(args) is Execute || parsed_action(args) == invalid_arguments_view(),
{
    lemma_command_words();
    let names = command_names();
    assert(!is_help(names[k].spec_bytes()));
    assert forall|j: int| 0 <= j < k implies names[j].spec_bytes() != operands(args)[0] by {
        assert(names[j].spec_bytes() != names[k].spec_bytes());
    }
    assert(names[0].spec_bytes() == "list".spec_bytes());
    assert(names[1].spec_bytes() == "where".spec_bytes());
    assert(names[2].spec_bytes() == "all".spec_bytes());
    assert(names[3].spec_bytes() == "shadowed".spec_bytes());
    assert(names[4].spec_bytes() == "duplicates".spec_bytes());
    assert(names[5].spec_bytes() == "broken".spec_bytes());
    assert(names[6].spec_bytes() == "stats".spec_bytes());
    assert(names[7].spec_bytes() == "doctor".spec_bytes());
    reveal_strlit("Commands:");
    reveal_strlit("  ");
    reveal_strlit(" ");
    reveal_strlit("list");
    reveal_strlit("where");
    reveal_strlit("all");
    reveal_strlit("shadowed");
    reveal_strlit("duplicates");
    reveal_strlit("broken");
    reveal_strlit("stats");
    reveal_strlit("doctor");
    reveal_strlit("  list        List executable binaries in PATH");
    reveal_strlit("  where       Show where a command is located");
    reveal_strlit("  all         Show all matching binaries with the same name");
    reveal_strlit("  shadowed    Show binaries hidden by PATH priority");
    reveal_strlit("  duplicates  Show duplicate binary names");
    reveal_strlit("  broken      Show broken symlinks and missing PATH entries");
    reveal_strlit("  stats       Show PATH binary statistics");
    reveal_strlit("  doctor      Diagnose PATH-related problems");
    assert(usage_text()[6 + k].take(names[k]@.len() + 3int) =~= "  "@ + names[k]@ + " "@);
}

} // verus!
