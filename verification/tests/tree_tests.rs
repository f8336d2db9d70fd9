use ftree::cli::Args;
use ftree::entry::{DirectoryEntry, EntryKind};
use ftree::tree::{scan_dirs, visit_dirs};

fn file(path: &str, name: &str, size: u64) -> DirectoryEntry {
    DirectoryEntry {
        name: name.to_string(),
        path: path.as_bytes().to_vec(),
        kind: EntryKind::File,
        size,
        children: Vec::new(),
    }
}

fn dir(path: &str, name: &str, children: Vec<DirectoryEntry>) -> DirectoryEntry {
    DirectoryEntry {
        name: name.to_string(),
        path: path.as_bytes().to_vec(),
        kind: EntryKind::Directory,
        size: 0,
        children,
    }
}

fn plain_opts() -> Args {
    Args {
        file_path: None,
        all: false,
        size: false,
        summary: false,
        dirs: false,
        pattern: None,
        exclude: false,
    }
}

fn sample_tree() -> DirectoryEntry {
    dir(
        "root",
        "root",
        vec![
            dir(
                "root/docs",
                "docs",
                vec![
                    file("root/docs/x.txt", "x.txt", 5),
                    file("root/docs/y.txt", "y.txt", 2048),
                ],
            ),
            file("root/a.txt", "a.txt", 100),
        ],
    )
}

fn render(tree: DirectoryEntry, opts: &Args) -> (Vec<String>, u64, u64) {
    let mut total_size = 0u64;
    let mut num_files = 0u64;
    let mut out: Vec<String> = Vec::new();
    visit_dirs(tree, "", opts, None, &mut total_size, &mut num_files, &mut out);
    (out, total_size, num_files)
}

#[test]
fn test_render_preorder_lines() {
    let (out, total_size, num_files) = render(sample_tree(), &plain_opts());
    assert_eq!(
        out,
        vec![
            "├── a.txt".to_string(),
            "└── docs".to_string(),
            "    ├── x.txt".to_string(),
            "    └── y.txt".to_string(),
        ]
    );
    assert_eq!(num_files, 4);
    assert_eq!(total_size, 0);
}

#[test]
fn test_render_with_sizes() {
    let mut opts = plain_opts();
    opts.size = true;
    let (out, total_size, num_files) = render(sample_tree(), &opts);
    assert_eq!(
        out,
        vec![
            "├── a.txt (100 Bytes)".to_string(),
            "└── docs".to_string(),
            "    ├── x.txt (5 Bytes)".to_string(),
            "    └── y.txt (2.00 KB)".to_string(),
        ]
    );
    assert_eq!(num_files, 4);
    assert_eq!(total_size, 100 + 5 + 2048);
}

#[test]
fn test_render_twice_identical() {
    let opts = plain_opts();
    let (out1, ts1, nf1) = render(sample_tree(), &opts);
    let (out2, ts2, nf2) = render(sample_tree(), &opts);
    assert_eq!(out1, out2);
    assert_eq!(ts1, ts2);
    assert_eq!(nf1, nf2);
}

#[test]
fn test_last_sibling_markers() {
    let tree = dir(
        "r",
        "r",
        vec![
            file("r/x", "x", 1),
            file("r/y", "y", 1),
            file("r/z", "z", 1),
        ],
    );
    let (out, _, _) = render(tree, &plain_opts());
    assert_eq!(
        out,
        vec![
            "├── x".to_string(),
            "├── y".to_string(),
            "└── z".to_string(),
        ]
    );
}

#[test]
fn test_child_prefix_of_earlier_sibling() {
    // A directory that is not the last sibling passes the pipe
    // fragment on to its children.
    let tree = dir(
        "r",
        "r",
        vec![
            dir("r/d", "d", vec![file("r/d/in.txt", "in.txt", 1)]),
            file("r/tail", "tail", 1),
        ],
    );
    let (out, _, _) = render(tree, &plain_opts());
    assert_eq!(
        out,
        vec![
            "├── d".to_string(),
            "│   └── in.txt".to_string(),
            "└── tail".to_string(),
        ]
    );
}

#[test]
fn test_dirs_only_renders_no_file() {
    let mut opts = plain_opts();
    opts.dirs = true;
    let (out, _, num_files) = render(sample_tree(), &opts);
    assert_eq!(out, vec!["└── docs".to_string()]);
    assert_eq!(num_files, 1);
}

#[test]
fn test_render_of_file_root_is_empty() {
    let (out, total_size, num_files) = render(file("a", "a", 7), &plain_opts());
    assert!(out.is_empty());
    assert_eq!(total_size, 0);
    assert_eq!(num_files, 0);
}

#[test]
fn test_scan_counts() {
    let mut total_size = 0u64;
    let mut num_files = 0u64;
    let mut total_dirs = 0u64;
    let opts = plain_opts();
    scan_dirs(
        sample_tree(),
        &opts,
        None,
        &mut total_size,
        &mut num_files,
        &mut total_dirs,
    );
    // The root and the one surviving directory entry.
    assert_eq!(total_dirs, 2);
    // Every surviving file entry, over every visited directory.
    assert_eq!(num_files, 3);
    // File bytes only, counted whether or not sizes are rendered.
    assert_eq!(total_size, 100 + 5 + 2048);
}

#[test]
fn test_scan_skips_hidden_subtree() {
    let tree = dir(
        "r",
        "r",
        vec![
            dir("r/.secret", ".secret", vec![file("r/.secret/big", "big", 4096)]),
            file("r/seen", "seen", 10),
        ],
    );
    let mut total_size = 0u64;
    let mut num_files = 0u64;
    let mut total_dirs = 0u64;
    let opts = plain_opts();
    scan_dirs(tree, &opts, None, &mut total_size, &mut num_files, &mut total_dirs);
    assert_eq!(total_dirs, 1);
    assert_eq!(num_files, 1);
    assert_eq!(total_size, 10);
}
