use pathbin::cli::Command;
use pathbin::commands::{execute, CommandResult};
use pathbin::model::ScanResult;
use pathbin::scanner::{
    count_empty_path_entries, entry_status, homebrew_search_list, normalize_path_entry,
    split_paths, CandidateFacts, EntryStatus, Platform,
};
use pathbin::search::{scan_reports, DirectoryItem, EntryReport};

const EXECUTABLE: CandidateFacts = CandidateFacts {
    symlink_metadata_ok: true,
    is_symlink: false,
    metadata_ok: true,
    is_file: true,
    executable: true,
};

const NOT_EXECUTABLE: CandidateFacts = CandidateFacts {
    symlink_metadata_ok: true,
    is_symlink: false,
    metadata_ok: true,
    is_file: true,
    executable: false,
};

const DIRECTORY: CandidateFacts = CandidateFacts {
    symlink_metadata_ok: true,
    is_symlink: false,
    metadata_ok: true,
    is_file: false,
    executable: true,
};

const BROKEN_LINK: CandidateFacts = CandidateFacts {
    symlink_metadata_ok: true,
    is_symlink: true,
    metadata_ok: false,
    is_file: false,
    executable: false,
};

/// What the file system holds at one directory of a fixture.
struct Dir<'a> {
    status: EntryStatus,
    items: &'a [(&'a [u8], CandidateFacts)],
}

const CWD: &[u8] = b"/tmp/pathbin-fixture";

/// Scans a search list over a fixture file system: `dirs` says what each
/// directory holds; a directory not named there does not exist.
fn scan(raw_path: Option<&[u8]>, dirs: &[(&[u8], Dir)]) -> ScanResult {
    let empty = raw_path.map(count_empty_path_entries).unwrap_or(0);
    scan_list(split_paths(raw_path), empty, dirs)
}

fn scan_list(entries: Vec<Vec<u8>>, empty: usize, dirs: &[(&[u8], Dir)]) -> ScanResult {
    let mut reports = Vec::new();
    for raw in entries {
        let entry = normalize_path_entry(&raw, Some(CWD.to_vec()));
        let found = dirs.iter().find(|(path, _)| *path == entry.as_slice());
        let status = match found {
            Some((_, dir)) => dir.status,
            None => entry_status(false, false, false),
        };
        let items = match found {
            Some((_, dir)) => dir
                .items
                .iter()
                .map(|(name, facts)| DirectoryItem { name: name.to_vec(), facts: *facts })
                .collect(),
            None => Vec::new(),
        };
        reports.push(EntryReport { entry, status, items });
    }
    scan_reports(Platform::Unix, &reports, empty)
}

fn readable<'a>(items: &'a [(&'a [u8], CandidateFacts)]) -> Dir<'a> {
    Dir { status: EntryStatus::Readable, items }
}

fn strings(lines: &[&str]) -> Vec<String> {
    lines.iter().map(|l| l.to_string()).collect()
}

fn assert_output(result: &CommandResult, code: i32, stdout: &[&str], stderr: &[&str]) {
    assert_eq!(result.exit_code, code);
    assert_eq!(result.stdout_lines, strings(stdout));
    assert_eq!(result.stderr_lines, strings(stderr));
}

fn where_(name: &[u8]) -> Command {
    Command::Where { name: name.to_vec() }
}

fn all(name: &[u8]) -> Command {
    Command::All { name: name.to_vec() }
}

#[test]
fn every_public_subcommand_has_a_success_contract() {
    let s = scan(
        Some(b"/tmp/pathbin-fixture/bin"),
        &[(b"/tmp/pathbin-fixture/bin", readable(&[(b"tool", EXECUTABLE)]))],
    );
    let tool = "/tmp/pathbin-fixture/bin/tool";

    assert_output(&execute(&Command::List, &s), 0, &[&format!("tool\t{tool}")], &[]);
    assert_output(&execute(&where_(b"tool"), &s), 0, &[tool], &[]);
    assert_output(&execute(&all(b"tool"), &s), 0, &[&format!("[active] {tool}")], &[]);
    assert_output(&execute(&Command::Shadowed, &s), 0, &["No shadowed binaries found."], &[]);
    assert_output(
        &execute(&Command::Duplicates, &s),
        0,
        &["No duplicate command names found."],
        &[],
    );
    assert_output(
        &execute(&Command::Broken, &s),
        0,
        &["No broken PATH entries or symlinks found."],
        &[],
    );
    let stats = execute(&Command::Stats, &s);
    assert_eq!(stats.exit_code, 0);
    assert!(stats.stderr_lines.is_empty());
    assert!(stats.stdout_lines.contains(&"PATH entries: 1".to_string()));
    assert!(stats.stdout_lines.contains(&"Executable binaries: 1".to_string()));
    assert!(stats.stdout_lines.contains(&"Unique command names: 1".to_string()));
    assert_output(&execute(&Command::Doctor, &s), 0, &["No obvious PATH problems detected."], &[]);
}

#[test]
fn lookup_failures_use_stderr_and_exit_one() {
    let s = scan(
        Some(b"/tmp/pathbin-fixture/bin"),
        &[(b"/tmp/pathbin-fixture/bin", readable(&[(b"tool", EXECUTABLE)]))],
    );
    assert_output(
        &execute(&where_(b"missing"), &s),
        1,
        &[],
        &["Command 'missing' was not found in PATH."],
    );
    assert_output(
        &execute(&all(b"missing"), &s),
        1,
        &[],
        &["Command 'missing' was not found in PATH."],
    );
}

#[test]
fn doctor_exits_one_for_warnings_and_errors() {
    let unset = scan(None, &[]);
    assert_output(
        &execute(&Command::Doctor, &unset),
        1,
        &[
            "[ERROR] PATH is empty or not set.",
            "Doctor summary: 1 issue category/categories detected.",
        ],
        &[],
    );

    let missing = scan(Some(b"/tmp/pathbin-fixture/missing"), &[]);
    assert_output(
        &execute(&Command::Doctor, &missing),
        1,
        &[
            "[WARN] PATH contains 1 missing directory/directories.",
            "Doctor summary: 1 issue category/categories detected.",
        ],
        &[],
    );
}

#[test]
fn doctor_exits_zero_for_informational_duplicate_only() {
    let s = scan(
        Some(b"/tmp/pathbin-fixture/bin:/tmp/pathbin-fixture/second-bin"),
        &[
            (b"/tmp/pathbin-fixture/bin", readable(&[(b"tool", EXECUTABLE)])),
            (b"/tmp/pathbin-fixture/second-bin", readable(&[(b"tool", EXECUTABLE)])),
        ],
    );
    assert_output(
        &execute(&Command::Doctor, &s),
        0,
        &[
            "[INFO] Found 1 duplicate command name(s).",
            "Doctor summary: 1 issue category/categories detected.",
        ],
        &[],
    );
}

#[test]
fn escapes_control_characters_from_filesystem_and_arguments() {
    let s = scan(
        Some(b"/tmp/pathbin-fixture/bin"),
        &[(
            b"/tmp/pathbin-fixture/bin",
            readable(&[(b"tool", EXECUTABLE), (b"bad\n\x1b[31m", EXECUTABLE)]),
        )],
    );

    let list = execute(&Command::List, &s);
    assert_eq!(list.exit_code, 0);
    assert!(list.stderr_lines.is_empty());
    assert_eq!(list.stdout_lines.len(), 2);
    assert!(list.stdout_lines.iter().all(|line| !line.contains('\u{1b}') && !line.contains('\n')));
    assert!(list.stdout_lines.iter().any(|line| line.contains("bad\\n\\u{1b}[31m\t")));

    let lookup = execute(&where_(b"missing\n\x1b[31m"), &s);
    assert_eq!(lookup.exit_code, 1);
    assert!(lookup.stdout_lines.is_empty());
    assert_eq!(
        lookup.stderr_lines,
        strings(&["Command 'missing\\n\\u{1b}[31m' was not found in PATH."])
    );
}

#[test]
fn preserves_and_looks_up_distinct_non_utf8_names() {
    let s = scan(
        Some(b"/tmp/pathbin-fixture/bin"),
        &[(
            b"/tmp/pathbin-fixture/bin",
            readable(&[(b"tool", EXECUTABLE), (b"tool-\xfe", EXECUTABLE), (b"tool-\xff", EXECUTABLE)]),
        )],
    );
    let list = execute(&Command::List, &s);
    assert_eq!(list.exit_code, 0);
    assert!(list.stdout_lines.iter().any(|line| line.contains("tool-\\xFE\t")));
    assert!(list.stdout_lines.iter().any(|line| line.contains("tool-\\xFF\t")));
    assert!(list.stdout_lines.iter().all(|line| !line.contains('\u{fffd}')));

    assert_output(
        &execute(&where_(b"tool-\xfe"), &s),
        0,
        &["/tmp/pathbin-fixture/bin/tool-\\xFE"],
        &[],
    );
    assert_output(
        &execute(&where_(b"tool-\xff"), &s),
        0,
        &["/tmp/pathbin-fixture/bin/tool-\\xFF"],
        &[],
    );
    assert_output(
        &execute(&Command::Duplicates, &s),
        0,
        &["No duplicate command names found."],
        &[],
    );
    let stats = execute(&Command::Stats, &s);
    assert!(stats.stdout_lines.contains(&"Unique command names: 3".to_string()));
}

#[test]
fn path_order_selects_active_and_classifies_duplicates() {
    let s = scan(
        Some(b"/tmp/precedence/first:/tmp/precedence/second"),
        &[
            (b"/tmp/precedence/first", readable(&[(b"tool", EXECUTABLE)])),
            (b"/tmp/precedence/second", readable(&[(b"tool", EXECUTABLE)])),
        ],
    );
    let first = "/tmp/precedence/first/tool";
    let second = "/tmp/precedence/second/tool";

    assert_output(&execute(&where_(b"tool"), &s), 0, &[first], &[]);
    assert_output(
        &execute(&all(b"tool"), &s),
        0,
        &[&format!("[active] {first}"), &format!("[shadowed] {second}")],
        &[],
    );
    assert_output(&execute(&Command::Duplicates, &s), 0, &["tool\t2"], &[]);
    assert_output(&execute(&Command::Shadowed, &s), 0, &["tool", &format!("  {second}")], &[]);
    let stats = execute(&Command::Stats, &s);
    assert_eq!(stats.exit_code, 0);
    assert!(stats.stdout_lines.contains(&"Duplicate command names: 1".to_string()));
    assert!(stats.stdout_lines.contains(&"Shadowed binaries: 1".to_string()));
    assert!(stats.stderr_lines.is_empty());
}

#[test]
fn repeated_path_directory_reports_each_binary_once() {
    let s = scan(
        Some(b"/tmp/repeated/bin:/tmp/repeated/bin"),
        &[(b"/tmp/repeated/bin", readable(&[(b"tool", EXECUTABLE)]))],
    );
    let tool = "/tmp/repeated/bin/tool";

    assert_output(&execute(&where_(b"tool"), &s), 0, &[tool], &[]);
    assert_output(&execute(&Command::List, &s), 0, &[&format!("tool\t{tool}")], &[]);
    assert_output(&execute(&all(b"tool"), &s), 0, &[&format!("[active] {tool}")], &[]);
    assert_output(
        &execute(&Command::Duplicates, &s),
        0,
        &["No duplicate command names found."],
        &[],
    );
    assert_output(&execute(&Command::Shadowed, &s), 0, &["No shadowed binaries found."], &[]);
    assert_output(
        &execute(&Command::Stats, &s),
        0,
        &[
            "PATH entries: 2",
            "Existing directories: 2",
            "Missing PATH entries: 0",
            "Non-directory entries: 0",
            "Unreadable PATH directories: 0",
            "Empty PATH entries: 0",
            "Executable binaries: 1",
            "Unique command names: 1",
            "Duplicate command names: 0",
            "Shadowed binaries: 0",
            "Broken symlinks: 0",
        ],
        &[],
    );
    assert_output(&execute(&Command::Doctor, &s), 0, &["No obvious PATH problems detected."], &[]);
}

#[test]
fn ineligible_entries_are_excluded_from_command_results() {
    let s = scan(
        Some(b"/tmp/ineligible/bin"),
        &[(
            b"/tmp/ineligible/bin",
            readable(&[(b"not-executable", NOT_EXECUTABLE), (b"nested", DIRECTORY)]),
        )],
    );

    assert_output(&execute(&Command::List, &s), 0, &["No executable binaries found in PATH."], &[]);
    for command_name in [&b"not-executable"[..], &b"nested-tool"[..], &b"nested"[..]] {
        let expected = format!(
            "Command '{}' was not found in PATH.",
            String::from_utf8_lossy(command_name)
        );
        assert_output(&execute(&where_(command_name), &s), 1, &[], &[&expected]);
        assert_output(&execute(&all(command_name), &s), 1, &[], &[&expected]);
    }
    assert_output(&execute(&Command::Shadowed, &s), 0, &["No shadowed binaries found."], &[]);
    assert_output(
        &execute(&Command::Duplicates, &s),
        0,
        &["No duplicate command names found."],
        &[],
    );
    assert_output(
        &execute(&Command::Stats, &s),
        0,
        &[
            "PATH entries: 1",
            "Existing directories: 1",
            "Missing PATH entries: 0",
            "Non-directory entries: 0",
            "Unreadable PATH directories: 0",
            "Empty PATH entries: 0",
            "Executable binaries: 0",
            "Unique command names: 0",
            "Duplicate command names: 0",
            "Shadowed binaries: 0",
            "Broken symlinks: 0",
        ],
        &[],
    );
    assert_output(&execute(&Command::Doctor, &s), 0, &["No obvious PATH problems detected."], &[]);
}

#[test]
fn unset_path_is_reported_as_empty() {
    let s = scan(None, &[]);
    let stats = execute(&Command::Stats, &s);
    assert_eq!(stats.exit_code, 0);
    assert!(stats.stdout_lines.contains(&"PATH entries: 0".to_string()));
    assert!(stats.stdout_lines.contains(&"Existing directories: 0".to_string()));
    assert!(stats.stdout_lines.contains(&"Executable binaries: 0".to_string()));
}

#[test]
fn empty_path_entry_is_counted_and_scans_the_current_directory() {
    let s = scan(Some(b""), &[(CWD, readable(&[(b"here", EXECUTABLE)]))]);
    let stats = execute(&Command::Stats, &s);
    assert_eq!(stats.exit_code, 0);
    assert!(stats.stdout_lines.contains(&"PATH entries: 1".to_string()));
    assert!(stats.stdout_lines.contains(&"Existing directories: 1".to_string()));
    assert!(stats.stdout_lines.contains(&"Empty PATH entries: 1".to_string()));
    assert_output(
        &execute(&where_(b"here"), &s),
        0,
        &["/tmp/pathbin-fixture/here"],
        &[],
    );
}

#[test]
fn missing_and_non_directory_entries_are_reported() {
    let s = scan(
        Some(b"/tmp/invalid/missing:/tmp/invalid/not-a-directory"),
        &[(
            b"/tmp/invalid/not-a-directory",
            Dir { status: EntryStatus::NotDirectory, items: &[] },
        )],
    );
    let broken = execute(&Command::Broken, &s);
    assert_eq!(broken.exit_code, 0);
    assert_eq!(
        broken.stdout_lines,
        strings(&[
            "Missing PATH entries:",
            "  /tmp/invalid/missing",
            "Non-directory PATH entries:",
            "  /tmp/invalid/not-a-directory",
        ])
    );
}

#[test]
fn unreadable_directory_is_reported_when_the_platform_rejects_access() {
    let s = scan(
        Some(b"/tmp/unreadable"),
        &[(b"/tmp/unreadable", Dir { status: EntryStatus::Unreadable, items: &[] })],
    );
    assert_output(
        &execute(&Command::Broken, &s),
        0,
        &["Unreadable PATH directories:", "  /tmp/unreadable"],
        &[],
    );
}

#[test]
fn broken_symlink_is_reported() {
    let s = scan(
        Some(b"/tmp/broken/bin"),
        &[(b"/tmp/broken/bin", readable(&[(b"broken-tool", BROKEN_LINK)]))],
    );
    assert_output(
        &execute(&Command::Broken, &s),
        0,
        &["Broken symlinks:", "  /tmp/broken/bin/broken-tool"],
        &[],
    );
}

#[test]
fn invalid_path_categories_are_consistent_across_diagnostic_commands() {
    let s = scan(
        Some(b":/tmp/c/missing:/tmp/c/not-a-directory:/tmp/c/bin:/tmp/c/unreadable"),
        &[
            (CWD, readable(&[])),
            (b"/tmp/c/not-a-directory", Dir { status: EntryStatus::NotDirectory, items: &[] }),
            (b"/tmp/c/bin", readable(&[(b"broken-tool", BROKEN_LINK)])),
            (b"/tmp/c/unreadable", Dir { status: EntryStatus::Unreadable, items: &[] }),
        ],
    );
    assert_output(
        &execute(&Command::Broken, &s),
        0,
        &[
            "Missing PATH entries:",
            "  /tmp/c/missing",
            "Non-directory PATH entries:",
            "  /tmp/c/not-a-directory",
            "Unreadable PATH directories:",
            "  /tmp/c/unreadable",
            "Broken symlinks:",
            "  /tmp/c/bin/broken-tool",
        ],
        &[],
    );
    assert_output(
        &execute(&Command::Stats, &s),
        0,
        &[
            "PATH entries: 5",
            "Existing directories: 3",
            "Missing PATH entries: 1",
            "Non-directory entries: 1",
            "Unreadable PATH directories: 1",
            "Empty PATH entries: 1",
            "Executable binaries: 0",
            "Unique command names: 0",
            "Duplicate command names: 0",
            "Shadowed binaries: 0",
            "Broken symlinks: 1",
        ],
        &[],
    );
    assert_output(
        &execute(&Command::Doctor, &s),
        1,
        &[
            "[WARN] PATH contains 1 empty entry/entries (current directory lookup).",
            "[WARN] PATH contains 1 missing directory/directories.",
            "[WARN] PATH contains 1 non-directory entry/entries.",
            "[WARN] PATH contains 1 unreadable directory/directories.",
            "[WARN] Found 1 broken symlink(s) in PATH directories.",
            "Doctor summary: 5 issue category/categories detected.",
        ],
        &[],
    );
}

#[test]
fn scans_only_homebrew_bin_and_sbin_in_resolution_order() {
    let entries = homebrew_search_list(Some(b"/tmp/homebrew"), b"/opt/homebrew").expect("absolute prefix");
    let s = scan_list(
        entries,
        0,
        &[
            (b"/tmp/ambient/bin", readable(&[(b"ambient-only", EXECUTABLE)])),
            (b"/tmp/homebrew/bin", readable(&[(b"tool", EXECUTABLE)])),
            (b"/tmp/homebrew/sbin", readable(&[(b"tool", EXECUTABLE), (b"admin", EXECUTABLE)])),
        ],
    );

    let list = execute(&Command::List, &s);
    assert_eq!(list.exit_code, 0);
    assert!(list.stdout_lines.iter().all(|line| !line.contains("ambient-only")));
    assert!(list.stdout_lines.contains(&"tool\t/tmp/homebrew/bin/tool".to_string()));
    assert!(list.stdout_lines.contains(&"admin\t/tmp/homebrew/sbin/admin".to_string()));
    assert_output(
        &execute(&all(b"tool"), &s),
        0,
        &["[active] /tmp/homebrew/bin/tool", "[shadowed] /tmp/homebrew/sbin/tool"],
        &[],
    );
    let stats = execute(&Command::Stats, &s);
    assert!(stats.stdout_lines.contains(&"PATH entries: 2".to_string()));
    assert!(stats.stdout_lines.contains(&"Existing directories: 2".to_string()));
    assert!(stats.stdout_lines.contains(&"Executable binaries: 3".to_string()));
}

#[test]
fn listing_follows_directory_then_name_order() {
    let s = scan(
        Some(b"/b:/a"),
        &[
            (b"/b", readable(&[(b"zed", EXECUTABLE), (b"ant", EXECUTABLE)])),
            (b"/a", readable(&[(b"zed", EXECUTABLE)])),
        ],
    );
    assert_output(
        &execute(&Command::List, &s),
        0,
        &["ant\t/b/ant", "zed\t/b/zed", "zed\t/a/zed"],
        &[],
    );
    assert_output(&execute(&Command::Duplicates, &s), 0, &["zed\t2"], &[]);
    assert_output(&execute(&Command::Shadowed, &s), 0, &["zed", "  /a/zed"], &[]);
}

#[test]
fn doctor_reports_twelve_empty_entries_with_two_digits() {
    let s = scan(Some(b"::::::::::::/x"), &[]);
    let doctor = execute(&Command::Doctor, &s);
    assert_eq!(doctor.exit_code, 1);
    assert_eq!(
        doctor.stdout_lines[0],
        "[WARN] PATH contains 12 empty entry/entries (current directory lookup)."
    );
}
