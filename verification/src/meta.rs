//! Aggregate statistics of a traversal, kept as one value.

use vstd::prelude::*;
use vstd::string::*;
use crate::entry::{DirectoryEntry, EntryKind};
use crate::size_format::{dec_spec, get_entry_size, size_string, u64_to_dec};
use crate::tree::views_of;

verus! {

/// The three lines of the summary-mode report.
pub open spec fn summary_report_spec(files: u64, dirs: u64, size: u64) -> Seq<Seq<char>> {
    seq![
        "Total files: "@ + dec_spec(files as int),
        "Total directories: "@ + dec_spec(dirs as int),
        "Total size of contents: "@ + size_string(size),
    ]
}

/// The aggregate lines that summary mode prints after the scan: the
/// file count, the directory count, and the total size of contents.
pub fn summary_report(num_files: u64, total_dirs: u64, total_size: u64) -> (lines: Vec<String>)
    ensures
        views_of(lines@) == summary_report_spec(num_files, total_dirs, total_size),
{
    let mut lines: Vec<String> = Vec::new();
    let mut files_line = String::new();
    files_line.append("Total files: ");
    let files = u64_to_dec(num_files);
    files_line.append(files.as_str());
    lines.push(files_line);
    let mut dirs_line = String::new();
    dirs_line.append("Total directories: ");
    let dirs = u64_to_dec(total_dirs);
    dirs_line.append(dirs.as_str());
    lines.push(dirs_line);
    let mut size_line = String::new();
    size_line.append("Total size of contents: ");
    let size = get_entry_size(&total_size);
    size_line.append(size.as_str());
    lines.push(size_line);
    proof {
        assert(views_of(lines@) =~= summary_report_spec(num_files, total_dirs, total_size));
    }
    lines
}

/// Running totals of a walk over a tree: how many files and
/// directories were met, and the bytes of the files among them.
pub struct FTreeMetadata {
    pub total_files: u64,
    pub total_dirs: u64,
    pub total_size: u64,
}

/// The summary line for the given totals.
pub open spec fn metadata_summary(files: u64, dirs: u64, size: u64) -> Seq<char> {
    "\n"@ + dec_spec(dirs as int) + " directories, "@ + dec_spec(files as int)
        + " files, total size: "@ + size_string(size)
}

impl FTreeMetadata {
    /// Fresh totals: nothing counted yet.
    pub fn new() -> (m: Self)
        ensures
            m.total_files == 0,
            m.total_dirs == 0,
            m.total_size == 0,
    {
        FTreeMetadata { total_files: 0, total_dirs: 0, total_size: 0 }
    }

    /// Count one met entry: a directory raises the directory count, a
    /// file raises the file count and adds its bytes.
    pub fn update(&mut self, entry: &DirectoryEntry)
        requires
            entry.kind is Directory ==> old(self).total_dirs < u64::MAX,
            entry.kind is File ==> old(self).total_files < u64::MAX && old(self).total_size
                + entry.size <= u64::MAX,
        ensures
            entry.kind is Directory ==> *final(self) == (FTreeMetadata {
                total_dirs: (old(self).total_dirs + 1) as u64,
                ..*old(self)
            }),
            entry.kind is File ==> *final(self) == (FTreeMetadata {
                total_files: (old(self).total_files + 1) as u64,
                total_size: (old(self).total_size + entry.size) as u64,
                ..*old(self)
            }),
    {
        match entry.kind {
            EntryKind::Directory => {
                self.total_dirs = self.total_dirs + 1;
            },
            EntryKind::File => {
                self.total_files = self.total_files + 1;
                self.total_size = self.total_size + entry.size;
            },
        }
    }

    /// The printable summary of the totals, starting with a blank
    /// line.
    pub fn summary(&self) -> (s: String)
        ensures
            s@ == metadata_summary(self.total_files, self.total_dirs, self.total_size),
    {
        let mut s = String::new();
        s.append("\n");
        let dirs = u64_to_dec(self.total_dirs);
        s.append(dirs.as_str());
        s.append(" directories, ");
        let files = u64_to_dec(self.total_files);
        s.append(files.as_str());
        s.append(" files, total size: ");
        let size = get_entry_size(&self.total_size);
        s.append(size.as_str());
        proof {
            assert(s@ =~= metadata_summary(self.total_files, self.total_dirs, self.total_size));
        }
        s
    }
}

} // verus!
