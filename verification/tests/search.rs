use pathbin::scanner::{CandidateFacts, EntryStatus, Platform};
use pathbin::search::{scan_reports, DirectoryItem, EntryReport};

const EXECUTABLE: CandidateFacts = CandidateFacts {
    symlink_metadata_ok: true,
    is_symlink: false,
    metadata_ok: true,
    is_file: true,
    executable: true,
};

const PLAIN_FILE: CandidateFacts = CandidateFacts {
    symlink_metadata_ok: true,
    is_symlink: false,
    metadata_ok: true,
    is_file: true,
    executable: false,
};

const BROKEN_LINK: CandidateFacts = CandidateFacts {
    symlink_metadata_ok: true,
    is_symlink: true,
    metadata_ok: false,
    is_file: false,
    executable: false,
};

fn item(name: &[u8], facts: CandidateFacts) -> DirectoryItem {
    DirectoryItem { name: name.to_vec(), facts }
}

fn report(entry: &[u8], status: EntryStatus, items: Vec<DirectoryItem>) -> EntryReport {
    EntryReport { entry: entry.to_vec(), status, items }
}

fn binaries(scan: &pathbin::model::ScanResult) -> Vec<(Vec<u8>, Vec<u8>, usize)> {
    scan.binaries()
        .iter()
        .map(|b| (b.name().to_vec(), b.path().to_vec(), b.path_index()))
        .collect()
}

#[test]
fn every_entry_is_counted_once_by_what_was_found() {
    let reports = vec![
        report(b"/missing", EntryStatus::Missing, vec![]),
        report(b"/bin", EntryStatus::Readable, vec![
            item(b"tool", EXECUTABLE),
            item(b"notes", PLAIN_FILE),
            item(b"gone", BROKEN_LINK),
        ]),
        report(b"/etc/passwd", EntryStatus::NotDirectory, vec![]),
        report(b"/locked", EntryStatus::Unreadable, vec![item(b"hidden", EXECUTABLE)]),
        report(b"/bin", EntryStatus::Readable, vec![item(b"tool", EXECUTABLE)]),
    ];
    let scan = scan_reports(Platform::Unix, &reports, 2);
    assert_eq!(scan.path_entries_total(), 5);
    assert_eq!(scan.existing_dirs(), 3);
    assert_eq!(scan.empty_path_entries(), 2);
    assert_eq!(scan.missing_entries(), &[b"/missing".to_vec()][..]);
    assert_eq!(scan.non_dir_entries(), &[b"/etc/passwd".to_vec()][..]);
    assert_eq!(scan.unreadable_entries(), &[b"/locked".to_vec()][..]);
    assert_eq!(scan.broken_symlinks(), &[b"/bin/gone".to_vec()][..]);
    assert_eq!(binaries(&scan), vec![(b"tool".to_vec(), b"/bin/tool".to_vec(), 1)]);
    assert_eq!(scan.unique_command_count(), 1);
}

#[test]
fn binaries_keep_search_list_order_and_are_indexed_by_name() {
    let reports = vec![
        report(b"/a", EntryStatus::Readable, vec![item(b"zed", EXECUTABLE), item(b"tool", EXECUTABLE)]),
        report(b"/b", EntryStatus::Readable, vec![item(b"tool", EXECUTABLE)]),
    ];
    let scan = scan_reports(Platform::Unix, &reports, 0);
    assert_eq!(
        binaries(&scan),
        vec![
            (b"tool".to_vec(), b"/a/tool".to_vec(), 0),
            (b"zed".to_vec(), b"/a/zed".to_vec(), 0),
            (b"tool".to_vec(), b"/b/tool".to_vec(), 1),
        ]
    );
    let matches: Vec<Vec<u8>> = scan.command_matches(b"tool").expect("tool is indexed").iter().map(|b| b.path().to_vec()).collect();
    assert_eq!(matches, vec![b"/a/tool".to_vec(), b"/b/tool".to_vec()]);
    assert_eq!(scan.duplicate_name_count(), 1);
    assert_eq!(scan.shadowed_binary_count(), 1);
}

#[test]
fn item_paths_are_joined_as_the_platform_joins_them() {
    let reports = vec![
        report(b"C:\\tools", EntryStatus::Readable, vec![item(b"run.exe", EXECUTABLE), item(b"gone.cmd", BROKEN_LINK)]),
        report(b"D:", EntryStatus::Readable, vec![item(b"go.bat", EXECUTABLE)]),
        report(b"E:/bin/", EntryStatus::Readable, vec![item(b"x.com", EXECUTABLE)]),
    ];
    let scan = scan_reports(Platform::Windows, &reports, 0);
    assert_eq!(
        binaries(&scan),
        vec![
            (b"run.exe".to_vec(), b"C:\\tools\\run.exe".to_vec(), 0),
            (b"go.bat".to_vec(), b"D:go.bat".to_vec(), 1),
            (b"x.com".to_vec(), b"E:/bin/x.com".to_vec(), 2),
        ]
    );
    assert_eq!(scan.broken_symlinks(), &[b"C:\\tools\\gone.cmd".to_vec()][..]);

    let unix = scan_reports(Platform::Unix, &[report(b"/opt/", EntryStatus::Readable, vec![item(b"a\\b", EXECUTABLE)])], 0);
    assert_eq!(binaries(&unix), vec![(b"a\\b".to_vec(), b"/opt/a\\b".to_vec(), 0)]);
}

#[test]
fn an_empty_search_list_gives_an_empty_scan() {
    let scan = scan_reports(Platform::Unix, &[], 0);
    assert_eq!(scan.path_entries_total(), 0);
    assert_eq!(scan.existing_dirs(), 0);
    assert!(scan.binaries().is_empty());
    assert!(scan.broken_symlinks().is_empty());
}
