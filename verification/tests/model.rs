use pathbin::model::{BinaryEntry, ScanResult};
use pathbin::scanner::{CandidateFacts, EntryStatus};

const EXECUTABLE: CandidateFacts = CandidateFacts {
    symlink_metadata_ok: true,
    is_symlink: false,
    metadata_ok: true,
    is_file: true,
    executable: true,
};

fn names(scan: &ScanResult) -> Vec<(Vec<u8>, Vec<u8>, usize)> {
    scan.binaries()
        .iter()
        .map(|e| (e.name().to_vec(), e.path().to_vec(), e.path_index()))
        .collect()
}

#[test]
fn non_utf8_command_names_remain_distinct_in_the_index() {
    let first: &[u8] = b"tool-\xfe";
    let second: &[u8] = b"tool-\xff";
    let mut scan = ScanResult::default();
    scan.record_binary(BinaryEntry::new(first.to_vec(), b"first".to_vec(), 0));
    scan.record_binary(BinaryEntry::new(second.to_vec(), b"second".to_vec(), 0));

    scan.build_name_index();

    assert_eq!(scan.unique_command_count(), 2);
    assert_eq!(scan.command_matches(first).map(|entries| entries.len()), Some(1));
    assert_eq!(scan.command_matches(second).map(|entries| entries.len()), Some(1));
}

#[test]
fn binaries_are_listed_by_directory_then_name_then_path() {
    let mut scan = ScanResult::start(2, 0);
    scan.record_binary(BinaryEntry::new(b"zeta".to_vec(), b"/b/zeta".to_vec(), 1));
    scan.record_binary(BinaryEntry::new(b"beta".to_vec(), b"/a/beta".to_vec(), 0));
    scan.record_binary(BinaryEntry::new(b"alpha".to_vec(), b"/b/alpha".to_vec(), 1));
    scan.record_binary(BinaryEntry::new(b"alpha".to_vec(), b"/a/alpha".to_vec(), 0));
    scan.build_name_index();

    assert_eq!(
        names(&scan),
        vec![
            (b"alpha".to_vec(), b"/a/alpha".to_vec(), 0),
            (b"beta".to_vec(), b"/a/beta".to_vec(), 0),
            (b"alpha".to_vec(), b"/b/alpha".to_vec(), 1),
            (b"zeta".to_vec(), b"/b/zeta".to_vec(), 1),
        ]
    );
    assert_eq!(scan.unique_command_count(), 3);
    assert_eq!(scan.duplicate_name_count(), 1);
    assert_eq!(scan.shadowed_binary_count(), 1);
    let alpha = scan.command_matches(b"alpha").expect("alpha is indexed");
    assert_eq!(alpha[0].path(), b"/a/alpha");
    assert_eq!(alpha[1].path(), b"/b/alpha");
    assert!(scan.command_matches(b"gamma").is_none());
    let groups = scan.duplicate_groups();
    assert_eq!(groups.len(), 1);
    assert_eq!(groups[0].name(), b"alpha");
    assert_eq!(groups[0].entries().len(), 2);
}

#[test]
fn a_path_found_twice_is_kept_once() {
    let mut scan = ScanResult::start(2, 0);
    scan.record_entry(b"/bin".to_vec(), EntryStatus::Readable);
    scan.record_candidate(b"/bin/tool".to_vec(), 0, EXECUTABLE);
    scan.record_entry(b"/bin".to_vec(), EntryStatus::Readable);
    scan.record_candidate(b"/bin/tool".to_vec(), 1, EXECUTABLE);
    scan.build_name_index();

    assert_eq!(names(&scan), vec![(b"tool".to_vec(), b"/bin/tool".to_vec(), 0)]);
    assert_eq!(scan.existing_dirs(), 2);
    assert_eq!(scan.path_entries_total(), 2);
    assert_eq!(scan.duplicate_name_count(), 0);
    assert_eq!(scan.shadowed_binary_count(), 0);
}

#[test]
fn entries_and_items_are_recorded_by_kind() {
    let mut scan = ScanResult::start(4, 1);
    scan.record_entry(b"/missing".to_vec(), EntryStatus::Missing);
    scan.record_entry(b"/file".to_vec(), EntryStatus::NotDirectory);
    scan.record_entry(b"/locked".to_vec(), EntryStatus::Unreadable);
    scan.record_entry(b"/bin".to_vec(), EntryStatus::Readable);
    scan.record_candidate(
        b"/bin/dangling".to_vec(),
        3,
        CandidateFacts { is_symlink: true, metadata_ok: false, ..EXECUTABLE },
    );
    scan.record_candidate(
        b"/bin/notes".to_vec(),
        3,
        CandidateFacts { executable: false, ..EXECUTABLE },
    );
    scan.record_candidate(b"/bin/tool".to_vec(), 3, EXECUTABLE);
    scan.build_name_index();

    assert_eq!(scan.missing_entries(), &[b"/missing".to_vec()]);
    assert_eq!(scan.non_dir_entries(), &[b"/file".to_vec()]);
    assert_eq!(scan.unreadable_entries(), &[b"/locked".to_vec()]);
    assert_eq!(scan.broken_symlinks(), &[b"/bin/dangling".to_vec()]);
    assert_eq!(scan.existing_dirs(), 2);
    assert_eq!(scan.empty_path_entries(), 1);
    assert_eq!(names(&scan), vec![(b"tool".to_vec(), b"/bin/tool".to_vec(), 3)]);
}

#[test]
fn copies_keep_every_field() {
    let entry = BinaryEntry::new(b"tool".to_vec(), b"/bin/tool".to_vec(), 7);
    let copy = entry.copy();
    assert_eq!(copy.name(), b"tool");
    assert_eq!(copy.path(), b"/bin/tool");
    assert_eq!(copy.path_index(), 7);
}
