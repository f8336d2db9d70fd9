use ftree::entry::{DirectoryEntry, EntryKind};
use ftree::meta::FTreeMetadata;

fn entry(name: &str, kind: EntryKind, size: u64) -> DirectoryEntry {
    DirectoryEntry {
        name: name.to_string(),
        path: name.as_bytes().to_vec(),
        kind,
        size,
        children: Vec::new(),
    }
}

#[test]
fn test_metadata_starts_empty() {
    let m = FTreeMetadata::new();
    assert_eq!(m.total_files, 0);
    assert_eq!(m.total_dirs, 0);
    assert_eq!(m.total_size, 0);
}

#[test]
fn test_metadata_update() {
    let mut m = FTreeMetadata::new();
    m.update(&entry("a", EntryKind::File, 600));
    m.update(&entry("b", EntryKind::File, 424));
    m.update(&entry("d", EntryKind::Directory, 0));
    assert_eq!(m.total_files, 2);
    assert_eq!(m.total_dirs, 1);
    assert_eq!(m.total_size, 1024);
}

#[test]
fn test_metadata_summary() {
    let mut m = FTreeMetadata::new();
    m.update(&entry("a", EntryKind::File, 600));
    m.update(&entry("b", EntryKind::File, 424));
    m.update(&entry("d", EntryKind::Directory, 0));
    assert_eq!(
        m.summary(),
        "\n1 directories, 2 files, total size: 1024 Bytes"
    );
}

#[test]
fn test_summary_report_lines() {
    let lines = ftree::meta::summary_report(3, 2, 2153);
    assert_eq!(
        lines,
        vec![
            "Total files: 3".to_string(),
            "Total directories: 2".to_string(),
            "Total size of contents: 2.10 KB".to_string(),
        ]
    );
}
