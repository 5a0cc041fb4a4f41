//! Core data model: entry records and tree nodes.

use vstd::prelude::*;

verus! {

/// Tri-state selection status of a node in the file tree.
#[derive(Debug, Clone, Copy, PartialEq, Eq, Structural)]
pub enum Check {
    /// The node and all its descendants (if any) are deselected.
    Unchecked,
    /// The node and all its descendants (if any) are selected.
    Checked,
    /// For directories: some descendants are selected and some are not. This
    /// state is derived from the children's states.
    Partial,
}

impl Default for Check {
    fn default() -> (r: Self)
        ensures
            r == Check::Checked,
    {
        Check::Checked
    }
}

/// Line-count statistics for one entry, as the extraction collaborator
/// reports them.
#[verifier::ext_equal]
#[derive(Debug, Clone, Copy, PartialEq, Eq, Structural)]
pub struct LocStats {
    pub code: u64,
    pub comments: u64,
    pub blanks: u64,
}

/// Detailed information about a discovered file or directory entry. Paths are
/// slash-separated byte strings; the modify time is seconds since the epoch.
/// Immutable once constructed.
#[verifier::ext_equal]
#[derive(Debug, Clone)]
pub struct FileInfo {
    pub path: Vec<u8>,
    pub is_dir: bool,
    pub size: u64,
    pub human_size: String,
    pub is_binary: bool,
    pub modified: Option<i64>,
    pub extension: Option<Vec<u8>>,
    pub loc_stats: Option<LocStats>,
}

/// Index into the node arena, uniquely identifying a node.
pub type FileId = usize;

/// A node in the file tree: an entry record, the ids of its children in
/// arrival order, its selection state and its expansion flag.
#[verifier::ext_equal]
#[derive(Debug, Clone)]
pub struct FileNode {
    pub info: FileInfo,
    pub children: Vec<FileId>,
    pub state: Check,
    pub is_expanded: bool,
}

impl FileNode {
    /// Creates a new node from an entry record, selected and collapsed.
    pub fn new(info: FileInfo) -> (r: Self)
        ensures
            r.info == info,
            r.children@ == Seq::<FileId>::empty(),
            r.state == Check::Checked,
            r.is_expanded == false,
    {
        Self { info, children: Vec::new(), state: Check::default(), is_expanded: false }
    }

    /// Whether the node represents a directory.
    #[inline]
    pub fn is_dir(&self) -> (r: bool)
        ensures
            r == self.info.is_dir,
    {
        self.info.is_dir
    }

    /// The full path of the node.
    #[inline]
    pub fn path(&self) -> (r: &Vec<u8>)
        ensures
            r == &self.info.path,
    {
        &self.info.path
    }

    /// The display name of the node: the last path component.
    pub fn name(&self) -> (r: Vec<u8>)
        ensures
            r@ == crate::pathutil::name_spec(self.info.path@),
    {
        crate::pathutil::name_of(&self.info.path)
    }
}

} // verus!
