use ftree::cli::Args;
use ftree::entry::{DirectoryEntry, EntryKind};
use ftree::filter::{filter_entries, is_hidden};
use ftree::pattern::Matcher;

fn file(name: &str, size: u64) -> DirectoryEntry {
    DirectoryEntry {
        name: name.to_string(),
        path: name.as_bytes().to_vec(),
        kind: EntryKind::File,
        size,
        children: Vec::new(),
    }
}

fn plain_opts() -> Args {
    Args {
        file_path: None,
        all: false,
        size: false,
        summary: false,
        dirs: false,
        pattern: None,
        exclude: false,
    }
}

fn sample_listing() -> Vec<DirectoryEntry> {
    vec![
        file("a.csv", 10),
        file("b.csv", 20),
        file("c.txt", 30),
        file(".hidden.csv", 40),
    ]
}

#[test]
fn test_pattern_keeps_matches() {
    let mut opts = plain_opts();
    opts.pattern = Some("\\.csv$".to_string());
    let matcher = Matcher::new("\\.csv$").unwrap();
    let out = filter_entries(sample_listing(), &opts, Some(&matcher));
    let names: Vec<&str> = out.iter().map(|e| e.name.as_str()).collect();
    assert_eq!(names, vec!["a.csv", "b.csv"]);
}

#[test]
fn test_pattern_excludes_matches() {
    let mut opts = plain_opts();
    opts.pattern = Some("\\.csv$".to_string());
    opts.exclude = true;
    let matcher = Matcher::new("\\.csv$").unwrap();
    let out = filter_entries(sample_listing(), &opts, Some(&matcher));
    let names: Vec<&str> = out.iter().map(|e| e.name.as_str()).collect();
    assert_eq!(names, vec!["c.txt"]);
}

#[test]
fn test_hidden_dropped_unless_all() {
    let opts = plain_opts();
    let out = filter_entries(sample_listing(), &opts, None);
    let names: Vec<&str> = out.iter().map(|e| e.name.as_str()).collect();
    assert_eq!(names, vec!["a.csv", "b.csv", "c.txt"]);

    let mut all_opts = plain_opts();
    all_opts.all = true;
    let out = filter_entries(sample_listing(), &all_opts, None);
    let names: Vec<&str> = out.iter().map(|e| e.name.as_str()).collect();
    assert_eq!(names, vec![".hidden.csv", "a.csv", "b.csv", "c.txt"]);
}

#[test]
fn test_entries_sorted_by_path() {
    let opts = plain_opts();
    let listing = vec![file("zeta", 1), file("alpha", 2), file("mid", 3)];
    let out = filter_entries(listing, &opts, None);
    let names: Vec<&str> = out.iter().map(|e| e.name.as_str()).collect();
    assert_eq!(names, vec!["alpha", "mid", "zeta"]);
}

#[test]
fn test_dirs_only_drops_files() {
    let mut opts = plain_opts();
    opts.dirs = true;
    let listing = vec![
        file("a.txt", 1),
        DirectoryEntry {
            name: "sub".to_string(),
            path: b"sub".to_vec(),
            kind: EntryKind::Directory,
            size: 0,
            children: Vec::new(),
        },
    ];
    let out = filter_entries(listing, &opts, None);
    let names: Vec<&str> = out.iter().map(|e| e.name.as_str()).collect();
    assert_eq!(names, vec!["sub"]);
}

#[test]
fn test_hidden_names() {
    assert!(is_hidden(&".git".to_string()));
    assert!(!is_hidden(&"src".to_string()));
    assert!(!is_hidden(&"".to_string()));
}

#[test]
fn test_invalid_pattern_refused() {
    // An unbalanced group is a configuration error, caught before any
    // traversal starts.
    assert!(Matcher::new("(csv").is_none());
    assert!(Matcher::new("csv").is_some());
}

#[test]
fn test_matcher_matches_name() {
    let matcher = Matcher::new("^ex.*csv$").unwrap();
    assert!(matcher.is_match("example_1.csv"));
    assert!(!matcher.is_match("example_1.txt"));
}
