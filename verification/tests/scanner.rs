use std::io::ErrorKind;
use std::path::PathBuf;

use dm_core::fs_adapter::{UnixFsAdapter, WindowsFsAdapter};
use dm_core::scanner::{
    classify_entry, dir_entry_event, file_entry_event, unreadable_dir_events, file_size_on_disk, rounded_size, EntryKind, FileId, ScanEvent};

#[test]
fn symlinks_are_skipped() {
    assert_eq!(classify_entry(true, true, false), EntryKind::Skipped);
    assert_eq!(classify_entry(true, false, true), EntryKind::Skipped);
}

#[test]
fn files_and_dirs_are_classified() {
    assert_eq!(classify_entry(false, true, false), EntryKind::File);
    assert_eq!(classify_entry(false, false, true), EntryKind::Dir);
    assert_eq!(classify_entry(false, false, false), EntryKind::Skipped);
}

#[test]
fn size_counts_512_byte_blocks() {
    assert_eq!(file_size_on_disk(1, 8), Some(4096));
    assert_eq!(file_size_on_disk(0, 3), Some(1536));
}

#[test]
fn hard_linked_files_are_not_counted() {
    assert_eq!(file_size_on_disk(2, 8), None);
}

#[test]
fn rounded_size_rounds_up_to_blocks() {
    assert_eq!(rounded_size(0), 0);
    assert_eq!(rounded_size(1), 4096);
    assert_eq!(rounded_size(4096), 4096);
    assert_eq!(rounded_size(4097), 8192);
}

#[test]
fn adapters_do_not_follow_symlinks() {
    assert!(UnixFsAdapter.is_traversable_dir(true, false));
    assert!(!UnixFsAdapter.is_traversable_dir(true, true));
    assert!(!UnixFsAdapter.is_traversable_dir(false, false));
    assert!(WindowsFsAdapter.is_traversable_dir(true, false));
    assert!(!WindowsFsAdapter.is_traversable_dir(true, true));
}

#[test]
fn file_ids_compare_by_fields() {
    let a = FileId { dev: 1, ino: 2 };
    let b = FileId { dev: 1, ino: 2 };
    assert_eq!(a, b);
    assert_ne!(a, FileId { dev: 1, ino: 3 });
}

#[test]
fn entries_report_what_their_probes_gave() {
    match file_entry_event(3, "f".to_string(), PathBuf::from("/d/f"), Ok(Some(512))) {
        Some(ScanEvent::File { parent_id, name, size }) => assert_eq!((parent_id, name.as_str(), size), (3, "f", 512)),
        other => panic!("unexpected {:?}", other),
    }
    assert!(file_entry_event(3, "f".to_string(), PathBuf::from("/d/f"), Ok(None)).is_none());
    match file_entry_event(3, "f".to_string(), PathBuf::from("/d/f"), Err(ErrorKind::PermissionDenied)) {
        Some(ScanEvent::Error { node, path, kind }) => {
            assert_eq!((node, kind), (3, ErrorKind::PermissionDenied));
            assert_eq!(path, PathBuf::from("/d/f"));
        }
        other => panic!("unexpected {:?}", other),
    }
    assert!(matches!(dir_entry_event(1, "s".to_string(), PathBuf::from("/d/s"), Ok(true)), Some(ScanEvent::Dir { parent_id: 1, .. })));
    assert!(dir_entry_event(1, "s".to_string(), PathBuf::from("/d/s"), Ok(false)).is_none());
    let evs = unreadable_dir_events(4, PathBuf::from("/d"), ErrorKind::NotFound);
    assert_eq!(evs.len(), 2);
    assert!(matches!(evs[0], ScanEvent::Error { node: 4, kind: ErrorKind::NotFound, .. }));
    assert!(matches!(evs[1], ScanEvent::Done { node: 4 }));
}
