use vstd::prelude::*;
use crate::cli::{Command, CommandView};
use crate::model::{
    byte_strings, index_size, lemma_duplicate_groups_big, NameGroup,
    duplicate_count, duplicate_groups_of, entry_views, lookup, shadowed_count, EntryView, GroupView,
    ScanResult, ScanView,
};
use crate::output::{decimal, push_decimal, render_os, render_path, rendered_os};

verus! {

/// What a command prints and the code it exits with.
#[derive(Debug, Default)]
pub struct CommandResult {
    pub stdout_lines: Vec<String>,
    pub stderr_lines: Vec<String>,
    pub exit_code: i32,
}

/// What a command prints, as lines of characters, and its exit code.
pub struct ResultView {
    pub stdout: Seq<Seq<char>>,
    pub stderr: Seq<Seq<char>>,
    pub exit_code: i32,
}

/// The texts held by a vector of strings.
pub open spec fn texts(lines: Seq<String>) -> Seq<Seq<char>> {
    lines.map_values(|l: String| l@)
}

impl View for CommandResult {
    type V = ResultView;

    open spec fn view(&self) -> ResultView {
        ResultView {
            stdout: texts(self.stdout_lines@),
            stderr: texts(self.stderr_lines@),
            exit_code: self.exit_code,
        }
    }
}

/// Lines on standard output, exit code 0.
pub open spec fn success_view(lines: Seq<Seq<char>>) -> ResultView {
    ResultView { stdout: lines, stderr: Seq::empty(), exit_code: 0 }
}

/// One line on standard error, exit code 1.
pub open spec fn failure_view(line: Seq<char>) -> ResultView {
    ResultView { stdout: Seq::empty(), stderr: seq![line], exit_code: 1 }
}

impl CommandResult {
    fn success(stdout_lines: Vec<String>) -> (r: Self)
        ensures
            r@ == success_view(texts(stdout_lines@)),
    {
        let r = CommandResult { stdout_lines, stderr_lines: Vec::new(), exit_code: 0 };
        assert(texts(r.stderr_lines@) =~= Seq::<Seq<char>>::empty());
        r
    }

    fn failure(stderr_line: String) -> (r: Self)
        ensures
            r@ == failure_view(stderr_line@),
    {
        let mut stderr_lines: Vec<String> = Vec::new();
        stderr_lines.push(stderr_line);
        let r = CommandResult { stdout_lines: Vec::new(), stderr_lines, exit_code: 1 };
        assert(texts(r.stderr_lines@) =~= seq![stderr_line@]);
        assert(texts(r.stdout_lines@) =~= Seq::<Seq<char>>::empty());
        r
    }
}

/// A text made of a prefix, a number in decimal and a suffix.
fn text_with_number(prefix: &str, n: usize, suffix: &str) -> (s: String)
    ensures
        s@ == prefix@ + decimal(n as nat) + suffix@,
{
    let mut s = String::from_str(prefix);
    push_decimal(&mut s, n);
    s.append(suffix);
    s
}

/// A text made of two texts.
fn joined_text(first: &str, second: &str) -> (s: String)
    ensures
        s@ == first@ + second@,
{
    let mut s = String::from_str(first);
    s.append(second);
    s
}

/// The line that lists one binary: its name, a tab, its path.
pub open spec fn list_line(e: EntryView) -> Seq<char> {
    rendered_os(e.name) + "\t"@ + rendered_os(e.path)
}

/// What `list` prints: one line per binary in listing order.
pub open spec fn list_view(s: ScanView) -> ResultView {
    if s.binaries.len() == 0 {
        success_view(seq!["No executable binaries found in PATH."@])
    } else {
        success_view(s.binaries.map_values(|e: EntryView| list_line(e)))
    }
}

fn list_binaries(scan: &ScanResult) -> (r: CommandResult)
    ensures
        r@ == list_view(scan@),
{
    let binaries = scan.binaries();
    let ghost bs = scan@.binaries;
    if binaries.len() == 0 {
        let mut lines: Vec<String> = Vec::new();
        lines.push(String::from_str("No executable binaries found in PATH."));
        assert(texts(lines@) =~= seq!["No executable binaries found in PATH."@]);
        return CommandResult::success(lines);
    }
    let mut lines: Vec<String> = Vec::new();
    let mut i: usize = 0;
    while i < binaries.len()
        invariant
            bs == entry_views(binaries@),
            i <= bs.len(),
            texts(lines@) == bs.take(i as int).map_values(|e: EntryView| list_line(e)),
        decreases bs.len() - i,
    {
        let entry = &binaries[i];
        assert(bs[i as int] == entry@);
        let mut line = render_os(entry.name());
        line.append("\t");
        let path = render_path(entry.path());
        line.append(path.as_str());
        assert(line@ == list_line(bs[i as int]));
        let ghost before = texts(lines@);
        lines.push(line);
        assert(texts(lines@) =~= before.push(list_line(bs[i as int])));
        i = i + 1;
        assert(texts(lines@) =~= bs.take(i as int).map_values(|e: EntryView| list_line(e)));
    }
    assert(bs.take(i as int) =~= bs);
    CommandResult::success(lines)
}

/// The error printed for a command name with no binary.
pub open spec fn not_found_line(name: Seq<u8>) -> Seq<char> {
    "Command '"@ + rendered_os(name) + "' was not found in PATH."@
}

fn command_not_found(command_name: &[u8]) -> (r: CommandResult)
    ensures
        r@ == failure_view(not_found_line(command_name@)),
{
    let mut line = String::from_str("Command '");
    let name = render_os(command_name);
    line.append(name.as_str());
    line.append("' was not found in PATH.");
    CommandResult::failure(line)
}

/// What `where` prints: the path of the first binary of the name.
pub open spec fn where_view(s: ScanView, name: Seq<u8>) -> ResultView {
    match lookup(s.by_name, name) {
        Some(es) => if es.len() > 0 {
            success_view(seq![rendered_os(es[0].path)])
        } else {
            failure_view(not_found_line(name))
        },
        None => failure_view(not_found_line(name)),
    }
}

fn where_command(scan: &ScanResult, command_name: &[u8]) -> (r: CommandResult)
    requires
        scan@.wf(),
    ensures
        r@ == where_view(scan@, command_name@),
{
    if let Some(found) = scan.command_matches(command_name) {
        if found.len() > 0 {
            let first = &found[0];
            assert(entry_views(found@)[0] == first@);
            let mut lines: Vec<String> = Vec::new();
            lines.push(render_path(first.path()));
            assert(texts(lines@) =~= seq![rendered_os(first@.path)]);
            return CommandResult::success(lines);
        }
    }
    command_not_found(command_name)
}

/// The line of `all` for the binary at a position: the first is active,
/// the others shadowed.
pub open spec fn all_line(index: int, e: EntryView) -> Seq<char> {
    (if index == 0 {
        "[active] "@
    } else {
        "[shadowed] "@
    }) + rendered_os(e.path)
}

/// What `all` prints: every binary of the name, the active one first.
pub open spec fn all_view(s: ScanView, name: Seq<u8>) -> ResultView {
    match lookup(s.by_name, name) {
        Some(es) => success_view(es.map(|i: int, e: EntryView| all_line(i, e))),
        None => failure_view(not_found_line(name)),
    }
}

fn all_commands(scan: &ScanResult, command_name: &[u8]) -> (r: CommandResult)
    requires
        scan@.wf(),
    ensures
        r@ == all_view(scan@, command_name@),
{
    if let Some(found) = scan.command_matches(command_name) {
        let ghost es = entry_views(found@);
        let mut lines: Vec<String> = Vec::new();
        let mut i: usize = 0;
        while i < found.len()
            invariant
                es == entry_views(found@),
                i <= es.len(),
                texts(lines@) == es.take(i as int).map(|k: int, e: EntryView| all_line(k, e)),
            decreases es.len() - i,
        {
            let entry = &found[i];
            assert(es[i as int] == entry@);
            let path = render_path(entry.path());
            let line = if i == 0 {
                joined_text("[active] ", path.as_str())
            } else {
                joined_text("[shadowed] ", path.as_str())
            };
            assert(line@ == all_line(i as int, es[i as int]));
            let ghost before = texts(lines@);
            lines.push(line);
            assert(texts(lines@) =~= before.push(all_line(i as int, es[i as int])));
            i = i + 1;
            assert(texts(lines@) =~= es.take(i as int).map(|k: int, e: EntryView| all_line(k, e)));
        }
        assert(es.take(i as int) =~= es);
        return CommandResult::success(lines);
    }
    command_not_found(command_name)
}

/// The lines of `shadowed` for one group: its name, then every binary after
/// the active one, indented.
pub open spec fn shadowed_group_lines(g: GroupView) -> Seq<Seq<char>> {
    seq![rendered_os(g.name)] + g.entries.skip(1).map_values(|e: EntryView| "  "@ + rendered_os(e.path))
}

/// The lines of `shadowed` for a sequence of groups.
pub open spec fn shadowed_lines(g: Seq<GroupView>) -> Seq<Seq<char>>
    decreases g.len(),
{
    if g.len() == 0 {
        Seq::empty()
    } else {
        shadowed_lines(g.drop_last()) + shadowed_group_lines(g.last())
    }
}

/// What `shadowed` prints: each name provided by several binaries, with the
/// binaries it hides.
pub open spec fn shadowed_view(s: ScanView) -> ResultView {
    let lines = shadowed_lines(duplicate_groups_of(s.by_name));
    if lines.len() == 0 {
        success_view(seq!["No shadowed binaries found."@])
    } else {
        success_view(lines)
    }
}

fn shadowed(scan: &ScanResult) -> (r: CommandResult)
    ensures
        r@ == shadowed_view(scan@),
{
    let groups = scan.duplicate_groups();
    let ghost gs = duplicate_groups_of(scan@.by_name);
    let mut lines: Vec<String> = Vec::new();
    let mut i: usize = 0;
    assert(gs.take(0) =~= Seq::<GroupView>::empty());
    proof {
        crate::model::lemma_duplicate_groups_big(scan@.by_name);
    }
    while i < groups.len()
        invariant
            gs == groups@.map_values(|g: &crate::model::NameGroup| g@),
            i <= gs.len(),
            texts(lines@) == shadowed_lines(gs.take(i as int)),
            forall|j: int| 0 <= j < gs.len() ==> (#[trigger] gs[j]).entries.len() > 1,
        decreases gs.len() - i,
    {
        let group = groups[i];
        let entries = group.entries();
        let ghost es = entry_views(entries@);
        assert(gs[i as int] == group@);
        assert(gs.take(i + 1).drop_last() =~= gs.take(i as int));
        let ghost before = texts(lines@);
        lines.push(render_os(group.name()));
        let mut k: usize = 1;
        proof {
            assert(es.skip(1).take(0) =~= Seq::<EntryView>::empty());
            assert(texts(lines@) =~= before + seq![rendered_os(group@.name)] + es.skip(1).take(0).map_values(
                |e: EntryView| "  "@ + rendered_os(e.path),
            ));
        }
        while k < entries.len()
            invariant
                es == entry_views(entries@),
                es == group@.entries,
                1 <= k <= es.len(),
                texts(lines@) == before + seq![rendered_os(group@.name)] + es.skip(1).take(k - 1).map_values(
                    |e: EntryView| "  "@ + rendered_os(e.path),
                ),
            decreases es.len() - k,
        {
            let entry = &entries[k];
            assert(es[k as int] == entry@);
            let path = render_path(entry.path());
            let line = joined_text("  ", path.as_str());
            let ghost before_line = texts(lines@);
            lines.push(line);
            assert(texts(lines@) =~= before_line.push("  "@ + rendered_os(es[k as int].path)));
            assert(es.skip(1).take(k as int) =~= es.skip(1).take(k - 1).push(es[k as int]));
            k = k + 1;
            assert(texts(lines@) =~= before + seq![rendered_os(group@.name)] + es.skip(1).take(k - 1).map_values(
                |e: EntryView| "  "@ + rendered_os(e.path),
            ));
        }
        proof {
            assert(es.skip(1).take(k - 1) =~= es.skip(1));
            assert(texts(lines@) =~= shadowed_lines(gs.take(i as int)) + shadowed_group_lines(gs[i as int]));
        }
        i = i + 1;
    }
    assert(gs.take(i as int) =~= gs);
    if lines.len() == 0 {
        lines.push(String::from_str("No shadowed binaries found."));
        assert(texts(lines@) =~= seq!["No shadowed binaries found."@]);
    }
    CommandResult::success(lines)
}

/// The line of `duplicates` for one group: its name, a tab, how many binaries provide it.
pub open spec fn duplicate_line(g: GroupView) -> Seq<char> {
    rendered_os(g.name) + "\t"@ + decimal(g.entries.len())
}

/// What `duplicates` prints: each name provided by several binaries, with their number.
pub open spec fn duplicates_view(s: ScanView) -> ResultView {
    let groups = duplicate_groups_of(s.by_name);
    if groups.len() == 0 {
        success_view(seq!["No duplicate command names found."@])
    } else {
        success_view(groups.map_values(|g: GroupView| duplicate_line(g)))
    }
}

fn duplicates(scan: &ScanResult) -> (r: CommandResult)
    ensures
        r@ == duplicates_view(scan@),
{
    let groups = scan.duplicate_groups();
    let ghost gs = duplicate_groups_of(scan@.by_name);
    let mut lines: Vec<String> = Vec::new();
    let mut i: usize = 0;
    while i < groups.len()
        invariant
            gs == groups@.map_values(|g: &NameGroup| g@),
            i <= gs.len(),
            texts(lines@) == gs.take(i as int).map_values(|g: GroupView| duplicate_line(g)),
        decreases gs.len() - i,
    {
        let group = groups[i];
        assert(gs[i as int] == group@);
        let mut line = render_os(group.name());
        line.append("\t");
        let entries = group.entries();
        assert(entry_views(entries@).len() == entries@.len());
        push_decimal(&mut line, entries.len());
        assert(line@ == duplicate_line(gs[i as int]));
        let ghost before = texts(lines@);
        lines.push(line);
        assert(texts(lines@) =~= before.push(duplicate_line(gs[i as int])));
        i = i + 1;
        assert(gs.take(i as int) =~= gs.take(i - 1).push(gs[i - 1]));
    }
    assert(gs.take(i as int) =~= gs);
    if lines.len() == 0 {
        lines.push(String::from_str("No duplicate command names found."));
        assert(texts(lines@) =~= seq!["No duplicate command names found."@]);
    }
    CommandResult::success(lines)
}

/// A titled section listing paths, indented; nothing when there are none.
pub open spec fn section(title: Seq<char>, items: Seq<Seq<u8>>) -> Seq<Seq<char>> {
    if items.len() == 0 {
        Seq::empty()
    } else {
        seq![title] + items.map_values(|p: Seq<u8>| "  "@ + rendered_os(p))
    }
}

fn push_section(lines: &mut Vec<String>, title: &str, items: &[Vec<u8>])
    ensures
        texts(final(lines)@) == texts(old(lines)@) + section(title@, byte_strings(items@)),
{
    let ghost start = texts(lines@);
    let ghost ps = byte_strings(items@);
    if items.len() == 0 {
        assert(texts(lines@) =~= start + section(title@, ps));
        return;
    }
    lines.push(String::from_str(title));
    let mut i: usize = 0;
    while i < items.len()
        invariant
            ps == byte_strings(items@),
            ps.len() > 0,
            i <= ps.len(),
            texts(lines@) == start + seq![title@] + ps.take(i as int).map_values(|p: Seq<u8>| "  "@ + rendered_os(p)),
        decreases ps.len() - i,
    {
        assert(ps[i as int] == items@[i as int]@);
        let path = render_path(items[i].as_slice());
        let line = joined_text("  ", path.as_str());
        let ghost before = texts(lines@);
        lines.push(line);
        assert(texts(lines@) =~= before.push("  "@ + rendered_os(ps[i as int])));
        i = i + 1;
        assert(ps.take(i as int) =~= ps.take(i - 1).push(ps[i - 1]));
    }
    assert(ps.take(i as int) =~= ps);
}

/// What `broken` prints: missing entries, entries that are not directories,
/// unreadable directories and broken links, each section only when it has items.
pub open spec fn broken_lines(s: ScanView) -> Seq<Seq<char>> {
    section("Missing PATH entries:"@, s.missing_entries) + section("Non-directory PATH entries:"@, s.non_dir_entries)
        + section("Unreadable PATH directories:"@, s.unreadable_entries) + section("Broken symlinks:"@, s.broken_symlinks)
}

pub open spec fn broken_view(s: ScanView) -> ResultView {
    if broken_lines(s).len() == 0 {
        success_view(seq!["No broken PATH entries or symlinks found."@])
    } else {
        success_view(broken_lines(s))
    }
}

fn broken(scan: &ScanResult) -> (r: CommandResult)
    ensures
        r@ == broken_view(scan@),
{
    let mut lines: Vec<String> = Vec::new();
    assert(texts(lines@) =~= Seq::<Seq<char>>::empty());
    push_section(&mut lines, "Missing PATH entries:", scan.missing_entries());
    push_section(&mut lines, "Non-directory PATH entries:", scan.non_dir_entries());
    push_section(&mut lines, "Unreadable PATH directories:", scan.unreadable_entries());
    push_section(&mut lines, "Broken symlinks:", scan.broken_symlinks());
    assert(texts(lines@) =~= broken_lines(scan@));
    if lines.len() == 0 {
        lines.push(String::from_str("No broken PATH entries or symlinks found."));
        assert(texts(lines@) =~= seq!["No broken PATH entries or symlinks found."@]);
    }
    CommandResult::success(lines)
}

/// A label followed by a number in decimal.
pub open spec fn counted(label: Seq<char>, n: nat) -> Seq<char> {
    label + decimal(n)
}

/// What `stats` prints.
pub open spec fn stats_lines(s: ScanView) -> Seq<Seq<char>> {
    seq![
        counted("PATH entries: "@, s.path_entries_total as nat),
        counted("Existing directories: "@, s.existing_dirs as nat),
        counted("Missing PATH entries: "@, s.missing_entries.len()),
        counted("Non-directory entries: "@, s.non_dir_entries.len()),
        counted("Unreadable PATH directories: "@, s.unreadable_entries.len()),
        counted("Empty PATH entries: "@, s.empty_path_entries as nat),
        counted("Executable binaries: "@, s.binaries.len()),
        counted("Unique command names: "@, s.by_name.len()),
        counted("Duplicate command names: "@, duplicate_count(s.by_name)),
        counted("Shadowed binaries: "@, shadowed_count(s.by_name)),
        counted("Broken symlinks: "@, s.broken_symlinks.len()),
    ]
}

fn stats(scan: &ScanResult) -> (r: CommandResult)
    requires
        scan@.wf(),
    ensures
        r@ == success_view(stats_lines(scan@)),
{
    let mut lines: Vec<String> = Vec::new();
    lines.push(text_with_number("PATH entries: ", scan.path_entries_total(), ""));
    lines.push(text_with_number("Existing directories: ", scan.existing_dirs(), ""));
    lines.push(text_with_number("Missing PATH entries: ", scan.missing_entries().len(), ""));
    lines.push(text_with_number("Non-directory entries: ", scan.non_dir_entries().len(), ""));
    lines.push(text_with_number("Unreadable PATH directories: ", scan.unreadable_entries().len(), ""));
    lines.push(text_with_number("Empty PATH entries: ", scan.empty_path_entries(), ""));
    lines.push(text_with_number("Executable binaries: ", scan.binaries().len(), ""));
    lines.push(text_with_number("Unique command names: ", scan.unique_command_count(), ""));
    lines.push(text_with_number("Duplicate command names: ", scan.duplicate_name_count(), ""));
    lines.push(text_with_number("Shadowed binaries: ", scan.shadowed_binary_count(), ""));
    lines.push(text_with_number("Broken symlinks: ", scan.broken_symlinks().len(), ""));
    proof {
        reveal_strlit("");
    }
    assert(texts(lines@) =~= stats_lines(scan@));
    CommandResult::success(lines)
}

/// A line when a condition holds, nothing otherwise.
pub open spec fn line_if(condition: bool, line: Seq<char>) -> Seq<Seq<char>> {
    if condition {
        seq![line]
    } else {
        Seq::empty()
    }
}

/// The findings of `doctor`, in order: an empty or unset search list (an
/// error), empty entries, missing directories, entries that are not
/// directories, unreadable directories and broken links (warnings), and
/// duplicate command names (information).
pub open spec fn doctor_findings(s: ScanView) -> Seq<Seq<char>> {
    line_if(s.path_entries_total == 0, "[ERROR] PATH is empty or not set."@)
        + line_if(s.empty_path_entries > 0, "[WARN] PATH contains "@ + decimal(s.empty_path_entries as nat) + " empty entry/entries (current directory lookup)."@)
        + line_if(s.missing_entries.len() > 0, "[WARN] PATH contains "@ + decimal(s.missing_entries.len()) + " missing directory/directories."@)
        + line_if(s.non_dir_entries.len() > 0, "[WARN] PATH contains "@ + decimal(s.non_dir_entries.len()) + " non-directory entry/entries."@)
        + line_if(s.unreadable_entries.len() > 0, "[WARN] PATH contains "@ + decimal(s.unreadable_entries.len()) + " unreadable directory/directories."@)
        + line_if(s.broken_symlinks.len() > 0, "[WARN] Found "@ + decimal(s.broken_symlinks.len()) + " broken symlink(s) in PATH directories."@)
        + line_if(duplicate_count(s.by_name) > 0, "[INFO] Found "@ + decimal(duplicate_count(s.by_name)) + " duplicate command name(s)."@)
}

/// Whether `doctor` finds a warning or an error (duplicates are only information).
pub open spec fn doctor_alarmed(s: ScanView) -> bool {
    ||| s.path_entries_total == 0
    ||| s.empty_path_entries > 0
    ||| s.missing_entries.len() > 0
    ||| s.non_dir_entries.len() > 0
    ||| s.unreadable_entries.len() > 0
    ||| s.broken_symlinks.len() > 0
}

/// What `doctor` prints: its findings and a summary that counts them, exit
/// code 1 when one of them is a warning or an error; or a line that says all
/// is well, exit code 0.
pub open spec fn doctor_view(s: ScanView) -> ResultView {
    let findings = doctor_findings(s);
    if findings.len() == 0 {
        success_view(seq!["No obvious PATH problems detected."@])
    } else {
        ResultView {
            stdout: findings.push("Doctor summary: "@ + decimal(findings.len()) + " issue category/categories detected."@),
            stderr: Seq::empty(),
            exit_code: if doctor_alarmed(s) {
                1
            } else {
                0
            },
        }
    }
}

fn note_finding(lines: &mut Vec<String>, findings: &mut usize, present: bool, prefix: &str, n: usize, suffix: &str)
    requires
        *old(findings) < 7,
    ensures
        texts(final(lines)@) == texts(old(lines)@) + line_if(present, prefix@ + decimal(n as nat) + suffix@),
        *final(findings) == *old(findings) + line_if(present, prefix@ + decimal(n as nat) + suffix@).len(),
{
    let ghost before = texts(lines@);
    if present {
        lines.push(text_with_number(prefix, n, suffix));
        *findings = *findings + 1;
    }
    assert(texts(lines@) =~= before + line_if(present, prefix@ + decimal(n as nat) + suffix@));
}

fn doctor_finding_lines(scan: &ScanResult) -> (r: (Vec<String>, usize))
    requires
        scan@.wf(),
    ensures
        texts(r.0@) == doctor_findings(scan@),
        r.1 == doctor_findings(scan@).len(),
{
    let ghost s = scan@;
    let mut lines: Vec<String> = Vec::new();
    let mut findings: usize = 0;
    if scan.path_entries_total() == 0 {
        lines.push(String::from_str("[ERROR] PATH is empty or not set."));
        findings = 1;
    }
    assert(texts(lines@) =~= line_if(s.path_entries_total == 0, "[ERROR] PATH is empty or not set."@));
    let missing = scan.missing_entries().len();
    let non_dir = scan.non_dir_entries().len();
    let unreadable = scan.unreadable_entries().len();
    let broken_links = scan.broken_symlinks().len();
    let duplicate_names = scan.duplicate_name_count();
    assert(missing == s.missing_entries.len());
    assert(non_dir == s.non_dir_entries.len());
    assert(unreadable == s.unreadable_entries.len());
    assert(broken_links == s.broken_symlinks.len());
    note_finding(&mut lines, &mut findings, scan.empty_path_entries() > 0, "[WARN] PATH contains ",
        scan.empty_path_entries(), " empty entry/entries (current directory lookup).");
    note_finding(&mut lines, &mut findings, missing > 0, "[WARN] PATH contains ",
        missing, " missing directory/directories.");
    note_finding(&mut lines, &mut findings, non_dir > 0, "[WARN] PATH contains ",
        non_dir, " non-directory entry/entries.");
    note_finding(&mut lines, &mut findings, unreadable > 0, "[WARN] PATH contains ",
        unreadable, " unreadable directory/directories.");
    note_finding(&mut lines, &mut findings, broken_links > 0, "[WARN] Found ",
        broken_links, " broken symlink(s) in PATH directories.");
    note_finding(&mut lines, &mut findings, duplicate_names > 0, "[INFO] Found ", duplicate_names,
        " duplicate command name(s).");
    (lines, findings)
}

fn doctor(scan: &ScanResult) -> (r: CommandResult)
    requires
        scan@.wf(),
    ensures
        r@ == doctor_view(scan@),
{
    let ghost s = scan@;
    let alarmed = scan.path_entries_total() == 0 || scan.empty_path_entries() > 0
        || scan.missing_entries().len() > 0 || scan.non_dir_entries().len() > 0
        || scan.unreadable_entries().len() > 0 || scan.broken_symlinks().len() > 0;
    let (mut lines, findings) = doctor_finding_lines(scan);
    if findings == 0 {
        let mut lines: Vec<String> = Vec::new();
        lines.push(String::from_str("No obvious PATH problems detected."));
        assert(texts(lines@) =~= seq!["No obvious PATH problems detected."@]);
        return CommandResult::success(lines);
    }
    let summary = text_with_number("Doctor summary: ", findings, " issue category/categories detected.");
    let ghost before = texts(lines@);
    lines.push(summary);
    assert(texts(lines@) =~= before.push(summary@));
    let r = CommandResult {
        stdout_lines: lines,
        stderr_lines: Vec::new(),
        exit_code: if alarmed {
            1
        } else {
            0
        },
    };
    assert(texts(r.stderr_lines@) =~= Seq::<Seq<char>>::empty());
    r
}

/// What a command prints over a scan.
pub open spec fn executed(command: CommandView, s: ScanView) -> ResultView {
    match command {
        CommandView::List => list_view(s),
        CommandView::Where(name) => where_view(s, name),
        CommandView::All(name) => all_view(s, name),
        CommandView::Shadowed => shadowed_view(s),
        CommandView::Duplicates => duplicates_view(s),
        CommandView::Broken => broken_view(s),
        CommandView::Stats => success_view(stats_lines(s)),
        CommandView::Doctor => doctor_view(s),
    }
}

/// Runs a command over the result of a scan.
pub fn execute(command: &Command, scan: &ScanResult) -> (r: CommandResult)
    requires
        scan@.wf(),
    ensures
        r@ == executed(command@, scan@),
{
    match command {
        Command::List => list_binaries(scan),
        Command::Where { name } => where_command(scan, name.as_slice()),
        Command::All { name } => all_commands(scan, name.as_slice()),
        Command::Shadowed => shadowed(scan),
        Command::Duplicates => duplicates(scan),
        Command::Broken => broken(scan),
        Command::Stats => stats(scan),
        Command::Doctor => doctor(scan),
    }
}

/// `where` and `all` agree: one fails exactly when the other does, and the
/// line `where` prints is the path `all` marks active.
pub proof fn law_where_is_the_active_binary(s: ScanView, n: Seq<u8>)
    requires
        s.wf(),
    ensures
        where_view(s, n).exit_code == all_view(s, n).exit_code,
        where_view(s, n).exit_code == 0 ==> all_view(s, n).stdout[0] == "[active] "@ + where_view(s, n).stdout[0],
        where_view(s, n).exit_code == 1 ==> where_view(s, n).stderr == all_view(s, n).stderr,
{
    crate::model::lemma_name_position(s.by_name, n);
    let k = crate::model::name_position(s.by_name, n) as int;
    if k < s.by_name.len() {
        assert(s.by_name[k].entries.len() > 0);
    }
}

/// `doctor` exits with 1 exactly when it finds a warning or an error;
/// duplicate names alone leave the exit code at 0. It never writes to
/// standard error, and when it finds something its last line counts the
/// lines before it.
#[verifier::rlimit(40)]
pub proof fn law_doctor_exit_code(s: ScanView)
    ensures
        doctor_view(s).exit_code == if doctor_alarmed(s) {
            1int
        } else {
            0int
        },
        doctor_view(s).stderr.len() == 0,
        doctor_findings(s).len() > 0 ==> doctor_view(s).stdout.last() == "Doctor summary: "@ + decimal((doctor_view(s).stdout.len() - 1) as nat) + " issue category/categories detected."@,
{
}

proof fn lemma_shadowed_lines_len(g: Seq<GroupView>)
    requires
        forall|i: int| 0 <= i < g.len() ==> (#[trigger] g[i]).entries.len() > 0,
    ensures
        shadowed_lines(duplicate_groups_of(g)).len() == duplicate_count(g) + shadowed_count(g),
    decreases g.len(),
{
    if g.len() > 0 {
        assert forall|i: int| 0 <= i < g.drop_last().len() implies (#[trigger] g.drop_last()[i]).entries.len() > 0 by {
            assert(g.drop_last()[i] == g[i]);
        }
        lemma_shadowed_lines_len(g.drop_last());
        let last = g[g.len() - 1];
        assert(last.entries.len() > 0);
        let d = duplicate_groups_of(g.drop_last());
        if last.entries.len() > 1 {
            assert(d.push(last).drop_last() =~= d);
            assert(shadowed_group_lines(last).len() == last.entries.len());
        }
    }
}

/// What `shadowed` prints agrees with the counts of `stats`: one line per
/// duplicate name and one per shadowed binary. `duplicates` prints one line
/// per duplicate name.
pub proof fn law_shadowed_and_duplicates_match_stats(s: ScanView)
    requires
        s.wf(),
    ensures
        shadowed_lines(duplicate_groups_of(s.by_name)).len() == duplicate_count(s.by_name) + shadowed_count(s.by_name),
        duplicate_groups_of(s.by_name).len() == duplicate_count(s.by_name),
{
    lemma_shadowed_lines_len(s.by_name);
    lemma_duplicate_groups_big(s.by_name);
}

/// Whether a line begins with a given text.
pub open spec fn starts_with(line: Seq<char>, prefix: Seq<char>) -> bool {
    prefix.len() <= line.len() && line.take(prefix.len() as int) == prefix
}

/// Whether a line reports a warning or an error.
pub open spec fn is_alarm_line(line: Seq<char>) -> bool {
    starts_with(line, "[WARN] "@) || starts_with(line, "[ERROR] "@)
}

/// Whether some line reports a warning or an error.
pub open spec fn has_alarm(lines: Seq<Seq<char>>) -> bool {
    exists|i: int| 0 <= i < lines.len() && #[trigger] is_alarm_line(lines[i])
}

proof fn lemma_has_alarm_concat(a: Seq<Seq<char>>, b: Seq<Seq<char>>)
    ensures
        has_alarm(a + b) == (has_alarm(a) || has_alarm(b)),
{
    if has_alarm(a + b) {
        let i = choose|i: int| 0 <= i < (a + b).len() && #[trigger] is_alarm_line((a + b)[i]);
        if i < a.len() {
            assert(a[i] == (a + b)[i]);
        } else {
            assert(b[i - a.len()] == (a + b)[i]);
        }
    }
    if has_alarm(a) {
        let i = choose|i: int| 0 <= i < a.len() && #[trigger] is_alarm_line(a[i]);
        assert((a + b)[i] == a[i]);
    }
    if has_alarm(b) {
        let i = choose|i: int| 0 <= i < b.len() && #[trigger] is_alarm_line(b[i]);
        assert((a + b)[a.len() + i] == b[i]);
    }
}

proof fn lemma_has_alarm_one(line: Seq<char>)
    ensures
        has_alarm(seq![line]) == is_alarm_line(line),
{
    if is_alarm_line(line) {
        assert(seq![line][0] == line);
    }
    if has_alarm(seq![line]) {
        let i = choose|i: int| 0 <= i < seq![line].len() && #[trigger] is_alarm_line(seq![line][i]);
        assert(i == 0);
    }
}

proof fn lemma_has_alarm_line_if(c: bool, line: Seq<char>)
    ensures
        has_alarm(line_if(c, line)) == (c && is_alarm_line(line)),
{
    lemma_has_alarm_one(line);
    if !c {
        assert(!has_alarm(line_if(c, line)));
    }
}

proof fn lemma_starts_with_concat(a: Seq<char>, b: Seq<char>, p: Seq<char>)
    requires
        p.len() <= a.len(),
    ensures
        starts_with(a + b, p) == starts_with(a, p),
{
    assert((a + b).take(p.len() as int) =~= a.take(p.len() as int));
}

/// The kind of a line that begins with a given text followed by anything.
proof fn lemma_alarm_of_lead(lead: Seq<char>, rest: Seq<char>)
    requires
        lead.len() >= 8,
    ensures
        is_alarm_line(lead + rest) == is_alarm_line(lead),
{
    reveal_strlit("[WARN] ");
    reveal_strlit("[ERROR] ");
    lemma_starts_with_concat(lead, rest, "[WARN] "@);
    lemma_starts_with_concat(lead, rest, "[ERROR] "@);
}

proof fn lemma_doctor_line_kinds()
    ensures
        is_alarm_line("[ERROR] PATH is empty or not set."@),
        is_alarm_line("[WARN] PATH contains "@),
        is_alarm_line("[WARN] Found "@),
        !is_alarm_line("[INFO] Found "@),
        !is_alarm_line("Doctor summary: "@),
        !is_alarm_line("No obvious PATH problems detected."@),
{
    reveal_strlit("[WARN] ");
    reveal_strlit("[ERROR] ");
    reveal_strlit("[ERROR] PATH is empty or not set.");
    reveal_strlit("[WARN] PATH contains ");
    reveal_strlit("[WARN] Found ");
    reveal_strlit("[INFO] Found ");
    reveal_strlit("Doctor summary: ");
    reveal_strlit("No obvious PATH problems detected.");
    assert("[ERROR] PATH is empty or not set."@.take(8) =~= "[ERROR] "@);
    assert("[WARN] PATH contains "@.take(7) =~= "[WARN] "@);
    assert("[WARN] Found "@.take(7) =~= "[WARN] "@);
    assert("[INFO] Found "@.take(7)[1] != "[WARN] "@[1]);
    assert("[INFO] Found "@.take(8)[1] != "[ERROR] "@[1]);
    assert("Doctor summary: "@.take(7)[0] != "[WARN] "@[0]);
    assert("Doctor summary: "@.take(8)[0] != "[ERROR] "@[0]);
    assert("No obvious PATH problems detected."@.take(7)[0] != "[WARN] "@[0]);
    assert("No obvious PATH problems detected."@.take(8)[0] != "[ERROR] "@[0]);
}

proof fn lemma_alarm_of_finding(lead: Seq<char>, n: nat, tail: Seq<char>)
    requires
        lead.len() >= 8,
    ensures
        is_alarm_line(lead + decimal(n) + tail) == is_alarm_line(lead),
{
    assert(lead + decimal(n) + tail =~= lead + (decimal(n) + tail));
    lemma_alarm_of_lead(lead, decimal(n) + tail);
}

/// `doctor` exits with 1 exactly when one of its lines reports a warning or
/// an error, and that is exactly when the search list is empty or unset, has
/// an empty entry, a missing directory, an entry that is not a directory, an
/// unreadable directory or a broken link; otherwise (duplicates alone, or
/// nothing found) it exits with 0.
#[verifier::spinoff_prover]
pub proof fn law_doctor_exits_one_on_warnings(s: ScanView)
    ensures
        executed(CommandView::Doctor, s).exit_code == 0 || executed(CommandView::Doctor, s).exit_code == 1,
        executed(CommandView::Doctor, s).exit_code == 1 <==> has_alarm(executed(CommandView::Doctor, s).stdout),
        executed(CommandView::Doctor, s).exit_code == 1 <==> (s.path_entries_total == 0 || s.empty_path_entries > 0
            || s.missing_entries.len() > 0 || s.non_dir_entries.len() > 0 || s.unreadable_entries.len() > 0
            || s.broken_symlinks.len() > 0),
{
    reveal_strlit("[ERROR] PATH is empty or not set.");
    reveal_strlit("[WARN] PATH contains ");
    reveal_strlit("[WARN] Found ");
    reveal_strlit("[INFO] Found ");
    reveal_strlit("Doctor summary: ");
    lemma_doctor_line_kinds();
    let e = "[ERROR] PATH is empty or not set."@;
    let w = "[WARN] PATH contains "@;
    let w5 = "[WARN] Found "@;
    let inf = "[INFO] Found "@;
    let l0 = line_if(s.path_entries_total == 0, e);
    let l1 = line_if(s.empty_path_entries > 0, w + decimal(s.empty_path_entries as nat) + " empty entry/entries (current directory lookup)."@);
    let l2 = line_if(s.missing_entries.len() > 0, w + decimal(s.missing_entries.len()) + " missing directory/directories."@);
    let l3 = line_if(s.non_dir_entries.len() > 0, w + decimal(s.non_dir_entries.len()) + " non-directory entry/entries."@);
    let l4 = line_if(s.unreadable_entries.len() > 0, w + decimal(s.unreadable_entries.len()) + " unreadable directory/directories."@);
    let l5 = line_if(s.broken_symlinks.len() > 0, w5 + decimal(s.broken_symlinks.len()) + " broken symlink(s) in PATH directories."@);
    let l6 = line_if(duplicate_count(s.by_name) > 0, inf + decimal(duplicate_count(s.by_name)) + " duplicate command name(s)."@);
    lemma_alarm_of_finding(w, s.empty_path_entries as nat, " empty entry/entries (current directory lookup)."@);
    lemma_alarm_of_finding(w, s.missing_entries.len(), " missing directory/directories."@);
    lemma_alarm_of_finding(w, s.non_dir_entries.len(), " non-directory entry/entries."@);
    lemma_alarm_of_finding(w, s.unreadable_entries.len(), " unreadable directory/directories."@);
    lemma_alarm_of_finding(w5, s.broken_symlinks.len(), " broken symlink(s) in PATH directories."@);
    lemma_alarm_of_finding(inf, duplicate_count(s.by_name), " duplicate command name(s)."@);
    lemma_has_alarm_line_if(s.path_entries_total == 0, e);
    lemma_has_alarm_line_if(s.empty_path_entries > 0, w + decimal(s.empty_path_entries as nat) + " empty entry/entries (current directory lookup)."@);
    lemma_has_alarm_line_if(s.missing_entries.len() > 0, w + decimal(s.missing_entries.len()) + " missing directory/directories."@);
    lemma_has_alarm_line_if(s.non_dir_entries.len() > 0, w + decimal(s.non_dir_entries.len()) + " non-directory entry/entries."@);
    lemma_has_alarm_line_if(s.unreadable_entries.len() > 0, w + decimal(s.unreadable_entries.len()) + " unreadable directory/directories."@);
    lemma_has_alarm_line_if(s.broken_symlinks.len() > 0, w5 + decimal(s.broken_symlinks.len()) + " broken symlink(s) in PATH directories."@);
    lemma_has_alarm_line_if(duplicate_count(s.by_name) > 0, inf + decimal(duplicate_count(s.by_name)) + " duplicate command name(s)."@);
    lemma_has_alarm_concat(l0, l1);
    lemma_has_alarm_concat(l0 + l1, l2);
    lemma_has_alarm_concat(l0 + l1 + l2, l3);
    lemma_has_alarm_concat(l0 + l1 + l2 + l3, l4);
    lemma_has_alarm_concat(l0 + l1 + l2 + l3 + l4, l5);
    lemma_has_alarm_concat(l0 + l1 + l2 + l3 + l4 + l5, l6);
    let f = doctor_findings(s);
    assert(f == l0 + l1 + l2 + l3 + l4 + l5 + l6);
    if f.len() == 0 {
        lemma_has_alarm_one("No obvious PATH problems detected."@);
    } else {
        let summary = "Doctor summary: "@ + decimal(f.len()) + " issue category/categories detected."@;
        lemma_alarm_of_finding("Doctor summary: "@, f.len(), " issue category/categories detected."@);
        lemma_has_alarm_one(summary);
        assert(f.push(summary) =~= f + seq![summary]);
        lemma_has_alarm_concat(f, seq![summary]);
    }
}

proof fn lemma_shadowed_is_size_less_names(g: Seq<GroupView>)
    requires
        forall|i: int| 0 <= i < g.len() ==> (#[trigger] g[i]).entries.len() > 0,
    ensures
        shadowed_count(g) + g.len() == index_size(g),
    decreases g.len(),
{
    if g.len() > 0 {
        assert forall|i: int| 0 <= i < g.drop_last().len() implies (#[trigger] g.drop_last()[i]).entries.len() > 0 by {
            assert(g.drop_last()[i] == g[i]);
        }
        lemma_shadowed_is_size_less_names(g.drop_last());
        assert(g[g.len() - 1].entries.len() > 0);
    }
}

/// `stats` prints eleven counts; among them, the executable binaries are
/// those of the scan, the unique command names are the names of the index,
/// and the shadowed binaries are the binaries of the index less its names:
/// every binary but the first of each name.
pub proof fn law_stats_counts(s: ScanView)
    requires
        s.wf(),
    ensures
        executed(CommandView::Stats, s).exit_code == 0,
        executed(CommandView::Stats, s).stdout.len() == 11,
        executed(CommandView::Stats, s).stdout[0] == "PATH entries: "@ + decimal(s.path_entries_total as nat),
        executed(CommandView::Stats, s).stdout[1] == "Existing directories: "@ + decimal(s.existing_dirs as nat),
        executed(CommandView::Stats, s).stdout[2] == "Missing PATH entries: "@ + decimal(s.missing_entries.len()),
        executed(CommandView::Stats, s).stdout[3] == "Non-directory entries: "@ + decimal(s.non_dir_entries.len()),
        executed(CommandView::Stats, s).stdout[4] == "Unreadable PATH directories: "@ + decimal(
            s.unreadable_entries.len(),
        ),
        executed(CommandView::Stats, s).stdout[5] == "Empty PATH entries: "@ + decimal(s.empty_path_entries as nat),
        executed(CommandView::Stats, s).stdout[6] == "Executable binaries: "@ + decimal(s.binaries.len()),
        executed(CommandView::Stats, s).stdout[7] == "Unique command names: "@ + decimal(s.by_name.len()),
        executed(CommandView::Stats, s).stdout[8] == "Duplicate command names: "@ + decimal(duplicate_groups_of(s.by_name).len()),
        executed(CommandView::Stats, s).stdout[9] == "Shadowed binaries: "@ + decimal((index_size(s.by_name) - s.by_name.len()) as nat),
        executed(CommandView::Stats, s).stdout[10] == "Broken symlinks: "@ + decimal(s.broken_symlinks.len()),
        index_size(s.by_name) >= s.by_name.len(),
{
    lemma_shadowed_is_size_less_names(s.by_name);
    lemma_duplicate_groups_big(s.by_name);
}

proof fn lemma_shadowed_lines_size(gs: Seq<GroupView>)
    requires
        forall|j: int| 0 <= j < gs.len() ==> (#[trigger] gs[j]).entries.len() > 0,
    ensures
        shadowed_lines(gs).len() == index_size(gs),
    decreases gs.len(),
{
    if gs.len() > 0 {
        let t = gs.drop_last();
        assert forall|j: int| 0 <= j < t.len() implies (#[trigger] t[j]).entries.len() > 0 by {
            assert(t[j] == gs[j]);
        }
        lemma_shadowed_lines_size(t);
        let g = gs[gs.len() - 1];
        assert(shadowed_group_lines(g).len() == g.entries.len());
    }
}

proof fn lemma_shadowed_line_at(gs: Seq<GroupView>, j: int, k: int)
    requires
        forall|i: int| 0 <= i < gs.len() ==> (#[trigger] gs[i]).entries.len() > 0,
        0 <= j < gs.len(),
        0 <= k < gs[j].entries.len(),
    ensures
        index_size(gs.take(j)) + k < index_size(gs),
        shadowed_lines(gs)[index_size(gs.take(j)) + k] == if k == 0 {
            rendered_os(gs[j].name)
        } else {
            "  "@ + rendered_os(gs[j].entries[k].path)
        },
    decreases gs.len(),
{
    let t = gs.drop_last();
    let last = gs.len() - 1;
    assert forall|i: int| 0 <= i < t.len() implies (#[trigger] t[i]).entries.len() > 0 by {
        assert(t[i] == gs[i]);
    }
    lemma_shadowed_lines_size(t);
    let g = gs[last];
    let gl = shadowed_group_lines(g);
    assert(gl.len() == g.entries.len());
    assert(shadowed_lines(gs) == shadowed_lines(t) + gl);
    assert(index_size(gs) == index_size(t) + g.entries.len());
    let idx = index_size(gs.take(j)) + k;
    if j < last {
        assert(gs[j] == t[j]);
        assert(gs.take(j) =~= t.take(j));
        lemma_shadowed_line_at(t, j, k);
        assert(shadowed_lines(gs)[idx] == shadowed_lines(t)[idx]);
    } else {
        assert(gs.take(j) =~= t);
        assert(shadowed_lines(gs)[idx] == gl[k]);
        if k > 0 {
            assert(g.entries.skip(1)[k - 1] == g.entries[k]);
            assert(gl[k] == "  "@ + rendered_os(g.entries[k].path));
        }
    }
}

/// Whether lines list, for each group in turn, its name and then the path of
/// every binary of the group after the first, each group's lines starting
/// where those of the groups before it end.
pub open spec fn lists_hidden_binaries(out: Seq<Seq<char>>, gs: Seq<GroupView>) -> bool {
    &&& forall|j: int| 0 <= j < gs.len()
        ==> index_size(gs.take(j)) < out.len() && out[index_size(gs.take(j)) as int] == rendered_os((#[trigger] gs[j]).name)
    &&& forall|j: int, k: int| 0 <= j < gs.len() && 1 <= k < gs[j].entries.len()
        ==> index_size(gs.take(j)) + k < out.len()
        && out[index_size(gs.take(j)) + k] == "  "@ + rendered_os((#[trigger] gs[j].entries[k]).path)
}

/// What `shadowed` prints, line by line: for each name provided by several
/// binaries, in name order, the name, then the path of every binary of the
/// name after the first, in order, and nothing else. With no such name it
/// prints one line saying so.
#[verifier::spinoff_prover]
#[verifier::rlimit(40)]
pub proof fn law_shadowed_lists_every_hidden_binary(s: ScanView)
    requires
        s.wf(),
    ensures
        executed(CommandView::Shadowed, s).exit_code == 0,
        duplicate_groups_of(s.by_name).len() == 0 ==> executed(CommandView::Shadowed, s).stdout
            == seq!["No shadowed binaries found."@],
        duplicate_groups_of(s.by_name).len() > 0 ==> executed(CommandView::Shadowed, s).stdout.len()
            == index_size(duplicate_groups_of(s.by_name)),
        duplicate_groups_of(s.by_name).len() > 0 ==> lists_hidden_binaries(
            executed(CommandView::Shadowed, s).stdout,
            duplicate_groups_of(s.by_name),
        ),
{
    let gs = duplicate_groups_of(s.by_name);
    lemma_duplicate_groups_big(s.by_name);
    lemma_shadowed_lines_size(gs);
    lemma_shadowed_is_size_less_names(gs);
    let out = executed(CommandView::Shadowed, s).stdout;
    if gs.len() > 0 {
        assert forall|j: int| 0 <= j < gs.len()
            implies index_size(gs.take(j)) < out.len() && out[index_size(gs.take(j)) as int] == rendered_os((#[trigger] gs[j]).name) by {
            lemma_shadowed_line_at(gs, j, 0);
        }
        assert forall|j: int, k: int| 0 <= j < gs.len() && 1 <= k < gs[j].entries.len()
            implies index_size(gs.take(j)) + k < out.len()
            && out[index_size(gs.take(j)) + k] == "  "@ + rendered_os((#[trigger] gs[j].entries[k]).path) by {
            lemma_shadowed_line_at(gs, j, k);
        }
        assert(lists_hidden_binaries(out, gs));
    }
}

/// What `all` prints for a name with binaries: one line per binary of the
/// name, in order; the first marked active and every later one marked
/// shadowed, each with the binary's path. A name with none is an error.
pub proof fn law_all_marks_only_the_first_active(s: ScanView, n: Seq<u8>)
    requires
        s.wf(),
    ensures
        match lookup(s.by_name, n) {
            Some(es) => {
                &&& es.len() > 0
                &&& all_view(s, n).exit_code == 0
                &&& all_view(s, n).stdout.len() == es.len()
                &&& all_view(s, n).stdout[0] == "[active] "@ + rendered_os(es[0].path)
                &&& starts_with(all_view(s, n).stdout[0], "[active] "@)
                &&& forall|i: int| 1 <= i < es.len() ==> all_view(s, n).stdout[i] == "[shadowed] "@ + rendered_os(
                    (#[trigger] es[i]).path,
                )
                &&& forall|i: int| 1 <= i < es.len() ==> starts_with(#[trigger] all_view(s, n).stdout[i], "[shadowed] "@)
            },
            None => all_view(s, n) == failure_view(not_found_line(n)),
        },
{
    crate::model::lemma_name_position(s.by_name, n);
    let k = crate::model::name_position(s.by_name, n) as int;
    if k < s.by_name.len() {
        assert(s.by_name[k].entries.len() > 0);
    }
    match lookup(s.by_name, n) {
        Some(es) => {
            let out = all_view(s, n).stdout;
            assert((("[active] "@ + rendered_os(es[0].path)).take(("[active] "@).len() as int)) =~= "[active] "@);
            assert forall|i: int| 1 <= i < es.len() implies starts_with(#[trigger] out[i], "[shadowed] "@) by {
                assert(out[i] == "[shadowed] "@ + rendered_os(es[i].path));
                assert(("[shadowed] "@ + rendered_os(es[i].path)).take(("[shadowed] "@).len() as int) =~= "[shadowed] "@);
            }
        },
        None => {},
    }
}

/// `list` prints one line per binary, in listing order: the binary's name, a
/// tab and its path; with no binary it prints one line saying so.
pub proof fn law_list_shows_every_binary(s: ScanView)
    ensures
        executed(CommandView::List, s).exit_code == 0,
        s.binaries.len() == 0 ==> executed(CommandView::List, s).stdout == seq!["No executable binaries found in PATH."@],
        s.binaries.len() > 0 ==> executed(CommandView::List, s).stdout.len() == s.binaries.len(),
        forall|i: int| 0 <= i < s.binaries.len() ==> executed(CommandView::List, s).stdout[i] == rendered_os(
            (#[trigger] s.binaries[i]).name,
        ) + "\t"@ + rendered_os(s.binaries[i].path),
{
}

/// `duplicates` prints one line per name provided by several binaries, in
/// name order: the name, a tab and how many binaries provide it; with no such
/// name it prints one line saying so.
pub proof fn law_duplicates_counts_each_name(s: ScanView)
    ensures
        executed(CommandView::Duplicates, s).exit_code == 0,
        duplicate_groups_of(s.by_name).len() == duplicate_count(s.by_name),
        duplicate_count(s.by_name) == 0 ==> executed(CommandView::Duplicates, s).stdout == seq![
            "No duplicate command names found."@,
        ],
        duplicate_count(s.by_name) > 0 ==> executed(CommandView::Duplicates, s).stdout.len() == duplicate_count(s.by_name),
        forall|i: int| 0 <= i < duplicate_groups_of(s.by_name).len() ==> (#[trigger] duplicate_groups_of(s.by_name)[i]).entries.len() > 1
            && executed(CommandView::Duplicates, s).stdout[i] == rendered_os(duplicate_groups_of(s.by_name)[i].name) + "\t"@
            + decimal(duplicate_groups_of(s.by_name)[i].entries.len()),
{
    lemma_duplicate_groups_big(s.by_name);
}

proof fn lemma_section_at(title: Seq<char>, items: Seq<Seq<u8>>)
    ensures
        section(title, items).len() == if items.len() == 0 { 0 } else { items.len() + 1 },
        items.len() > 0 ==> section(title, items)[0] == title,
        forall|i: int| 0 <= i < items.len() ==> section(title, items)[i + 1] == "  "@ + rendered_os(#[trigger] items[i]),
{
}

/// Whether lines hold, from a position on, a title and then every path of a
/// list, indented, in order (nothing at all when the list is empty).
pub open spec fn section_at(out: Seq<Seq<char>>, at: int, title: Seq<char>, items: Seq<Seq<u8>>) -> bool {
    &&& items.len() > 0 ==> at < out.len() && out[at] == title
    &&& forall|i: int| 0 <= i < items.len() ==> at + 1 + i < out.len() && out[at + 1 + i] == "  "@ + rendered_os(
        #[trigger] items[i],
    )
}

/// The number of lines a section of a list takes.
pub open spec fn section_size(items: Seq<Seq<u8>>) -> int {
    if items.len() == 0 {
        0
    } else {
        items.len() + 1int
    }
}

/// `broken` prints, in this order and each only when it has something, the
/// missing entries, the entries that are not directories, the unreadable
/// directories and the broken links, each under its title and indented; when
/// there is none of these it prints one line saying so.
#[verifier::spinoff_prover]
pub proof fn law_broken_lists_every_problem(s: ScanView)
    ensures
        ({
            let out = executed(CommandView::Broken, s).stdout;
            let a = section_size(s.missing_entries);
            let b = a + section_size(s.non_dir_entries);
            let c = b + section_size(s.unreadable_entries);
            let d = c + section_size(s.broken_symlinks);
            &&& executed(CommandView::Broken, s).exit_code == 0
            &&& d == 0 ==> out == seq!["No broken PATH entries or symlinks found."@]
            &&& d > 0 ==> out.len() == d
            &&& d > 0 ==> section_at(out, 0, "Missing PATH entries:"@, s.missing_entries)
            &&& d > 0 ==> section_at(out, a, "Non-directory PATH entries:"@, s.non_dir_entries)
            &&& d > 0 ==> section_at(out, b, "Unreadable PATH directories:"@, s.unreadable_entries)
            &&& d > 0 ==> section_at(out, c, "Broken symlinks:"@, s.broken_symlinks)
        }),
{
    let s0 = section("Missing PATH entries:"@, s.missing_entries);
    let s1 = section("Non-directory PATH entries:"@, s.non_dir_entries);
    let s2 = section("Unreadable PATH directories:"@, s.unreadable_entries);
    let s3 = section("Broken symlinks:"@, s.broken_symlinks);
    lemma_section_at("Missing PATH entries:"@, s.missing_entries);
    lemma_section_at("Non-directory PATH entries:"@, s.non_dir_entries);
    lemma_section_at("Unreadable PATH directories:"@, s.unreadable_entries);
    lemma_section_at("Broken symlinks:"@, s.broken_symlinks);
    let out = executed(CommandView::Broken, s).stdout;
    let a = section_size(s.missing_entries);
    let b = a + section_size(s.non_dir_entries);
    let c = b + section_size(s.unreadable_entries);
    let d = c + section_size(s.broken_symlinks);
    assert(broken_lines(s) == s0 + s1 + s2 + s3);
    if d > 0 {
        assert(out == s0 + s1 + s2 + s3);
        assert(section_at(out, 0, "Missing PATH entries:"@, s.missing_entries)) by {
            assert forall|i: int| 0 <= i < s.missing_entries.len() implies 0 + 1 + i < out.len() && out[0 + 1 + i]
                == "  "@ + rendered_os(#[trigger] s.missing_entries[i]) by {
                assert(out[1 + i] == s0[1 + i]);
            }
        }
        assert(section_at(out, a, "Non-directory PATH entries:"@, s.non_dir_entries)) by {
            if s.non_dir_entries.len() > 0 {
                assert(out[a] == s1[0]);
            }
            assert forall|i: int| 0 <= i < s.non_dir_entries.len() implies a + 1 + i < out.len() && out[a + 1 + i]
                == "  "@ + rendered_os(#[trigger] s.non_dir_entries[i]) by {
                assert(out[a + 1 + i] == s1[1 + i]);
            }
        }
        assert(section_at(out, b, "Unreadable PATH directories:"@, s.unreadable_entries)) by {
            if s.unreadable_entries.len() > 0 {
                assert(out[b] == s2[0]);
            }
            assert forall|i: int| 0 <= i < s.unreadable_entries.len() implies b + 1 + i < out.len() && out[b + 1 + i]
                == "  "@ + rendered_os(#[trigger] s.unreadable_entries[i]) by {
                assert(out[b + 1 + i] == s2[1 + i]);
            }
        }
        assert(section_at(out, c, "Broken symlinks:"@, s.broken_symlinks)) by {
            if s.broken_symlinks.len() > 0 {
                assert(out[c] == s3[0]);
            }
            assert forall|i: int| 0 <= i < s.broken_symlinks.len() implies c + 1 + i < out.len() && out[c + 1 + i]
                == "  "@ + rendered_os(#[trigger] s.broken_symlinks[i]) by {
                assert(out[c + 1 + i] == s3[1 + i]);
            }
        }
    }
}

} // verus!
