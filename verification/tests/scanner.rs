use pathbin::scanner::{
    candidate_kind, count_empty_path_entries, entry_status, file_name,
    has_windows_executable_extension, homebrew_search_list, is_executable_mode, joined,
    normalize_path_entry, split_at_separator, split_paths, CandidateFacts, CandidateKind,
    EntryStatus,
};
use pathbin::scanner::{
    count_empty_path_entries_on, file_name_for, is_executable, joined_on, split_paths_on, Platform,
};

fn bytes(list: &[&str]) -> Vec<Vec<u8>> {
    list.iter().map(|s| s.as_bytes().to_vec()).collect()
}

#[test]
fn windows_executable_extensions_are_case_insensitive() {
    for path in ["tool.exe", "tool.CMD", "tool.Bat", "tool.cOm", "tool.PS1"] {
        assert!(has_windows_executable_extension(path.as_bytes()), "{path}");
    }
}

#[test]
fn windows_executable_detection_rejects_unknown_or_missing_extensions() {
    for path in ["tool", "tool.sh", "tool.txt", "tool.exe.backup"] {
        assert!(!has_windows_executable_extension(path.as_bytes()), "{path}");
    }
}

#[test]
fn windows_extension_is_taken_from_the_file_name() {
    assert!(has_windows_executable_extension(b"/usr/bin/tool.exe"));
    assert!(has_windows_executable_extension(b"dir/tool.exe/"));
    assert!(!has_windows_executable_extension(b".exe"));
    assert!(!has_windows_executable_extension(b"dir.exe/tool"));
    assert!(!has_windows_executable_extension(b"tool.exe/.."));
    assert!(!has_windows_executable_extension(b"tool.ex"));
    assert!(has_windows_executable_extension(b".hidden.exe"));
}

#[test]
fn file_names_follow_path_components() {
    assert_eq!(file_name(b"/usr/bin/tool"), Some(b"tool".to_vec()));
    assert_eq!(file_name(b"/usr/bin/"), Some(b"bin".to_vec()));
    assert_eq!(file_name(b"dir/./"), Some(b"dir".to_vec()));
    assert_eq!(file_name(b"tool"), Some(b"tool".to_vec()));
    assert_eq!(file_name(b"/"), None);
    assert_eq!(file_name(b"."), None);
    assert_eq!(file_name(b"a/.."), None);
    assert_eq!(file_name(b""), None);
    assert_eq!(file_name(b"bin/tool-\xfe"), Some(b"tool-\xfe".to_vec()));
}

#[test]
fn search_lists_split_at_colons() {
    assert_eq!(split_paths(Some(b"/a:/b")), bytes(&["/a", "/b"]));
    assert_eq!(split_paths(Some(b"")), bytes(&[""]));
    assert_eq!(split_paths(Some(b":/a::")), bytes(&["", "/a", "", ""]));
    assert_eq!(split_paths(None), Vec::<Vec<u8>>::new());
    assert_eq!(split_at_separator(b"a/b", b'/'), bytes(&["a", "b"]));
}

#[test]
fn empty_search_list_entries_are_counted() {
    assert_eq!(count_empty_path_entries(b""), 1);
    assert_eq!(count_empty_path_entries(b"/a:/b"), 0);
    assert_eq!(count_empty_path_entries(b":/a::"), 3);
}

#[test]
fn execute_bits_make_a_file_executable() {
    assert!(is_executable_mode(0o755));
    assert!(is_executable_mode(0o100));
    assert!(is_executable_mode(0o010));
    assert!(is_executable_mode(0o001));
    assert!(!is_executable_mode(0o644));
    assert!(!is_executable_mode(0o4666));
}

#[test]
fn homebrew_directories_come_from_an_absolute_prefix() {
    assert_eq!(
        homebrew_search_list(Some(b"/tmp/homebrew"), b"/opt/homebrew"),
        Ok(bytes(&["/tmp/homebrew/bin", "/tmp/homebrew/sbin"]))
    );
    assert_eq!(
        homebrew_search_list(Some(b"/tmp/homebrew/"), b"/opt/homebrew"),
        Ok(bytes(&["/tmp/homebrew/bin", "/tmp/homebrew/sbin"]))
    );
    assert_eq!(
        homebrew_search_list(None, b"/opt/homebrew"),
        Ok(bytes(&["/opt/homebrew/bin", "/opt/homebrew/sbin"]))
    );
}

#[test]
fn rejects_a_relative_homebrew_prefix() {
    assert_eq!(
        homebrew_search_list(Some(b"relative-prefix"), b"/opt/homebrew"),
        Err("HOMEBREW_PREFIX must be an absolute path.".to_string())
    );
    assert_eq!(
        homebrew_search_list(Some(b""), b"/opt/homebrew"),
        Err("HOMEBREW_PREFIX must be an absolute path.".to_string())
    );
}

#[test]
fn paths_join_with_one_separator() {
    assert_eq!(joined(b"/a", b"bin"), b"/a/bin".to_vec());
    assert_eq!(joined(b"/a/", b"bin"), b"/a/bin".to_vec());
    assert_eq!(joined(b"", b"bin"), b"bin".to_vec());
}

#[test]
fn an_empty_entry_stands_for_the_current_directory() {
    assert_eq!(normalize_path_entry(b"", Some(b"/home/me".to_vec())), b"/home/me".to_vec());
    assert_eq!(normalize_path_entry(b"", None), b".".to_vec());
    assert_eq!(normalize_path_entry(b"/usr/bin", Some(b"/home/me".to_vec())), b"/usr/bin".to_vec());
}

#[test]
fn entries_are_classified_in_turn() {
    assert_eq!(entry_status(false, false, false), EntryStatus::Missing);
    assert_eq!(entry_status(false, true, true), EntryStatus::Missing);
    assert_eq!(entry_status(true, false, false), EntryStatus::NotDirectory);
    assert_eq!(entry_status(true, true, false), EntryStatus::Unreadable);
    assert_eq!(entry_status(true, true, true), EntryStatus::Readable);
}

#[test]
fn directory_items_are_classified() {
    let executable = CandidateFacts {
        symlink_metadata_ok: true,
        is_symlink: false,
        metadata_ok: true,
        is_file: true,
        executable: true,
    };
    assert_eq!(candidate_kind(executable), CandidateKind::Executable);
    assert_eq!(
        candidate_kind(CandidateFacts { executable: false, ..executable }),
        CandidateKind::Skipped
    );
    assert_eq!(
        candidate_kind(CandidateFacts { is_file: false, ..executable }),
        CandidateKind::Skipped
    );
    assert_eq!(
        candidate_kind(CandidateFacts { symlink_metadata_ok: false, ..executable }),
        CandidateKind::Skipped
    );
    assert_eq!(
        candidate_kind(CandidateFacts { is_symlink: true, metadata_ok: false, ..executable }),
        CandidateKind::BrokenSymlink
    );
    assert_eq!(
        candidate_kind(CandidateFacts { is_symlink: false, metadata_ok: false, ..executable }),
        CandidateKind::Skipped
    );
    assert_eq!(
        candidate_kind(CandidateFacts { is_symlink: true, ..executable }),
        CandidateKind::Executable
    );
}

#[test]
fn windows_search_lists_split_at_semicolons_outside_quotes() {
    assert_eq!(
        split_paths_on(Platform::Windows, Some(b"C:\\bin;\"D:\\a;b\";;E:\\tools")),
        bytes(&["C:\\bin", "D:\\a;b", "", "E:\\tools"])
    );
    assert_eq!(split_paths_on(Platform::Windows, Some(b"")), bytes(&[""]));
    assert_eq!(split_paths_on(Platform::Windows, None), Vec::<Vec<u8>>::new());
    assert_eq!(
        split_paths_on(Platform::Unix, Some(b"/bin:/usr/bin")),
        bytes(&["/bin", "/usr/bin"])
    );
    assert_eq!(
        split_paths_on(Platform::Other, Some(b"/bin;x:/usr/bin")),
        bytes(&["/bin;x", "/usr/bin"])
    );
}

#[test]
fn empty_entries_are_counted_at_the_platform_separator() {
    assert_eq!(count_empty_path_entries_on(Platform::Windows, b";C:\\bin;;"), 3);
    assert_eq!(count_empty_path_entries_on(Platform::Windows, b"a:b"), 0);
    assert_eq!(count_empty_path_entries_on(Platform::Unix, b"a;;b::"), 2);
    assert_eq!(count_empty_path_entries_on(Platform::Unix, b""), 1);
}

#[test]
fn windows_file_names_follow_both_separators_and_skip_the_drive() {
    assert_eq!(file_name_for(Platform::Windows, b"C:\\dir\\tool.exe"), Some(b"tool.exe".to_vec()));
    assert_eq!(file_name_for(Platform::Windows, b"C:/dir/run.cmd"), Some(b"run.cmd".to_vec()));
    assert_eq!(file_name_for(Platform::Windows, b"C:tool"), Some(b"tool".to_vec()));
    assert_eq!(file_name_for(Platform::Windows, b"C:"), None);
    assert_eq!(file_name_for(Platform::Windows, b"C:\\dir\\.."), None);
    assert_eq!(file_name_for(Platform::Unix, b"/a\\b"), Some(b"a\\b".to_vec()));
}

#[test]
fn executability_follows_the_platform_rule() {
    assert!(is_executable(Platform::Unix, true, 0o100, b"/bin/tool"));
    assert!(!is_executable(Platform::Unix, true, 0o644, b"/bin/tool.exe"));
    assert!(is_executable(Platform::Windows, true, 0, b"C:\\bin\\tool.EXE"));
    assert!(is_executable(Platform::Windows, true, 0, b"C:\\bin\\script.ps1"));
    assert!(!is_executable(Platform::Windows, true, 0o755, b"C:\\bin\\tool"));
    assert!(!is_executable(Platform::Windows, true, 0, b"C:\\bin.exe\\tool"));
    assert!(is_executable(Platform::Other, true, 0, b"/bin/tool"));
    assert!(!is_executable(Platform::Other, false, 0o755, b"/bin/tool"));
}

#[test]
fn names_are_appended_with_the_platform_separator() {
    assert_eq!(joined_on(Platform::Windows, b"C:\\bin", b"tool.exe"), b"C:\\bin\\tool.exe".to_vec());
    assert_eq!(joined_on(Platform::Windows, b"C:\\bin\\", b"tool.exe"), b"C:\\bin\\tool.exe".to_vec());
    assert_eq!(joined_on(Platform::Windows, b"C:/bin/", b"tool.exe"), b"C:/bin/tool.exe".to_vec());
    assert_eq!(joined_on(Platform::Windows, b"C:", b"tool.exe"), b"C:tool.exe".to_vec());
    assert_eq!(joined_on(Platform::Windows, b"", b"tool.exe"), b"tool.exe".to_vec());
    assert_eq!(joined_on(Platform::Unix, b"/bin", b"tool"), b"/bin/tool".to_vec());
    assert_eq!(joined_on(Platform::Unix, b"C:", b"tool"), b"C:/tool".to_vec());
    assert_eq!(joined_on(Platform::Other, b"/bin\\", b"tool"), b"/bin\\/tool".to_vec());
}
