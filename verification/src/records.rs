use vstd::prelude::*;

verus! {

/// The recursive aggregate for a directory: total bytes and total number of
/// files over the directory and all of its descendants.
#[derive(Clone, Copy, Debug, PartialEq, Eq, Structural)]
pub struct SizeRecord {
    pub size: u64,
    pub file_count: u64,
}

/// Event payload pushed to observers: the recursive aggregate of `path`
/// has just been resolved.
#[derive(Clone, Debug)]
pub struct SizeUpdate {
    pub path: String,
    pub size: u64,
    pub file_count: u64,
}

/// One node of a listing.  `size` is `None` while a directory's recursive
/// size is still unknown; `base_size` is the sum of the sizes of the files
/// directly contained in a directory and is always known.  `children` is
/// populated only for the root of a listing request.
#[derive(Debug)]
pub struct FileNode {
    pub name: String,
    pub path: String,
    pub size: Option<u64>,
    pub base_size: u64,
    pub is_dir: bool,
    pub file_count: u64,
    pub children: Option<Vec<FileNode>>,
}

/// The plain metadata of one directory entry, as the host hands it in
/// after a one-level directory read: base name, full path, whether the
/// entry is a directory (symlinks are never reported as directories), and
/// the entry's own length in bytes (zero for directories).
#[derive(Clone, Debug)]
pub struct EntryMeta {
    pub name: String,
    pub path: String,
    pub is_dir: bool,
    pub len: u64,
}

} // verus!
