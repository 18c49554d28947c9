use vstd::prelude::*;
use std::io::ErrorKind;
use std::path::PathBuf;
use crate::model::NodeId;

verus! {

/// A path handed from the file system to a later scan; the library only carries it.
#[verifier::external_type_specification]
#[verifier::external_body]
pub struct ExPathBuf(PathBuf);

/// The kind of an I/O error; the library only carries it.
#[verifier::external_type_specification]
#[verifier::external_body]
pub struct ExErrorKind(ErrorKind);

/// Identifies a file on its device, to tell hard links apart.
#[derive(Debug, Clone, Copy, PartialEq, Eq, Hash)]
pub struct FileId {
    pub dev: u64,
    pub ino: u64,
}

/// A directory waiting to be scanned.
#[derive(Debug)]
pub struct ScanJob {
    pub path: PathBuf,
    pub node_id: NodeId,
    pub depth: u16,
}

/// What scanning one directory reports.
#[derive(Debug)]
pub enum ScanEvent {
    File { parent_id: NodeId, name: String, size: u64 },
    Dir { parent_id: NodeId, name: String, path: PathBuf },
    Done { node: NodeId },
    Error { node: NodeId, path: PathBuf, kind: ErrorKind },
}

/// What a directory entry is to the scan.
#[derive(Debug, Clone, Copy, PartialEq, Eq, Structural)]
pub enum EntryKind {
    /// Neither counted nor descended into (symbolic links and special files).
    Skipped,
    /// A file whose size is counted.
    File,
    /// A directory that may be descended into.
    Dir,
}

/// Sorts a directory entry by its file type: symbolic links are skipped even
/// when they point at files or directories.
pub fn classify_entry(is_symlink: bool, is_file: bool, is_dir: bool) -> (k: EntryKind)
    ensures
        k == (if is_symlink {
            EntryKind::Skipped
        } else if is_file {
            EntryKind::File
        } else if is_dir {
            EntryKind::Dir
        } else {
            EntryKind::Skipped
        }),
{
    if is_symlink {
        EntryKind::Skipped
    } else if is_file {
        EntryKind::File
    } else if is_dir {
        EntryKind::Dir
    } else {
        EntryKind::Skipped
    }
}

/// The bytes a file occupies, from its count of 512-byte blocks; a file with
/// more than one hard link is not counted at all (`None`), so that no copy of
/// it is counted twice.
pub fn file_size_on_disk(nlink: u64, blocks: u64) -> (size: Option<u64>)
    requires
        nlink <= 1 ==> blocks * 512 <= u64::MAX,
    ensures
        size == (if nlink > 1 { None } else { Some((blocks * 512) as u64) }),
{
    if nlink > 1 {
        None
    } else {
        Some(blocks * 512)
    }
}

/// The bytes a file of `len` bytes occupies where block counts are not
/// known: `len` rounded up to whole 4096-byte blocks.
pub fn rounded_size(len: u64) -> (size: u64)
    requires
        len + 4095 <= u64::MAX,
    ensures
        size == (if len == 0 { 0 } else { ((len + 4095) / 4096 * 4096) as u64 }),
        size % 4096 == 0,
        len <= size < len + 4096,
{
    if len == 0 {
        0
    } else {
        (len + 4095) / 4096 * 4096
    }
}

/// What a file entry named `name` at `path` in directory `parent_id`
/// reports, from what reading its metadata gave: its size where it is
/// counted, nothing where it is not, and an error where the metadata could
/// not be read.
pub fn file_entry_event(
    parent_id: NodeId,
    name: String,
    path: PathBuf,
    size: Result<Option<u64>, ErrorKind>,
) -> (r: Option<ScanEvent>)
    ensures
        r == (match size {
            Ok(Some(sz)) => Some(ScanEvent::File { parent_id, name, size: sz }),
            Ok(None) => None,
            Err(kind) => Some(ScanEvent::Error { node: parent_id, path, kind }),
        }),
{
    match size {
        Ok(Some(sz)) => Some(ScanEvent::File { parent_id, name, size: sz }),
        Ok(None) => None,
        Err(kind) => Some(ScanEvent::Error { node: parent_id, path, kind }),
    }
}

/// What a directory entry named `name` at `path` in directory `parent_id`
/// reports, from whether it may be descended into: a directory to scan where
/// it may, nothing where it may not, and an error where that could not be
/// told.
pub fn dir_entry_event(
    parent_id: NodeId,
    name: String,
    path: PathBuf,
    traversable: Result<bool, ErrorKind>,
) -> (r: Option<ScanEvent>)
    ensures
        r == (match traversable {
            Ok(true) => Some(ScanEvent::Dir { parent_id, name, path }),
            Ok(false) => None,
            Err(kind) => Some(ScanEvent::Error { node: parent_id, path, kind }),
        }),
{
    match traversable {
        Ok(true) => Some(ScanEvent::Dir { parent_id, name, path }),
        Ok(false) => None,
        Err(kind) => Some(ScanEvent::Error { node: parent_id, path, kind }),
    }
}

/// What scanning directory `node` at `path` reports where it cannot be
/// read: the error, then that the directory is done.
pub fn unreadable_dir_events(node: NodeId, path: PathBuf, kind: ErrorKind) -> (r: Vec<ScanEvent>)
    ensures
        r@ == seq![ScanEvent::Error { node, path, kind }, ScanEvent::Done { node }],
{
    let mut r: Vec<ScanEvent> = Vec::new();
    r.push(ScanEvent::Error { node, path, kind });
    r.push(ScanEvent::Done { node });
    r
}

/// `PathBuf::clone`: a copy of the path.
#[verifier::external_body]
fn clone_path(p: &PathBuf) -> (r: PathBuf)
    ensures
        r == *p,
{
    p.clone()
}

impl Clone for ScanJob {
    fn clone(&self) -> (r: Self)
        ensures
            r == *self,
    {
        ScanJob { path: clone_path(&self.path), node_id: self.node_id, depth: self.depth }
    }
}

} // verus!
