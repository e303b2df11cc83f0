//! The nodes of a scanned tree.

use vstd::prelude::*;

verus! {

/// Position of a node in its arena.
#[derive(Clone, Copy, Debug, Eq, Hash, Ord, PartialEq, PartialOrd, Structural)]
pub struct NodeId(pub u32);

impl NodeId {
    /// The root directory of a scan.
    pub fn root() -> (id: NodeId)
        ensures
            id == NodeId(0),
    {
        NodeId(0)
    }

    /// The position as an index into the node list.
    pub fn index(self) -> (position: usize)
        ensures
            position == self.0,
    {
        self.0 as usize
    }
}

/// Location of a name inside a name arena.
#[derive(Clone, Copy, Debug, Eq, PartialEq, Structural)]
pub struct NameRef {
    pub offset: u32,
    pub len: u16,
}

/// What a node stands for on disk.
#[derive(Clone, Copy, Debug, Eq, PartialEq, Structural)]
pub enum NodeKind {
    File,
    Directory,
    Symlink,
    Other,
}

impl NodeKind {
    /// The kind behind what the system says of a file.
    pub open spec fn of_flags(is_dir: bool, is_file: bool, is_symlink: bool) -> NodeKind {
        if is_dir {
            NodeKind::Directory
        } else if is_file {
            NodeKind::File
        } else if is_symlink {
            NodeKind::Symlink
        } else {
            NodeKind::Other
        }
    }

    /// The kind behind what the system says of a file.
    pub fn from_flags(is_dir: bool, is_file: bool, is_symlink: bool) -> (kind: NodeKind)
        ensures
            kind == NodeKind::of_flags(is_dir, is_file, is_symlink),
    {
        if is_dir {
            NodeKind::Directory
        } else if is_file {
            NodeKind::File
        } else if is_symlink {
            NodeKind::Symlink
        } else {
            NodeKind::Other
        }
    }
}

/// One entry of the scanned tree.
#[derive(Clone, Copy, Debug, Eq, PartialEq, Structural)]
pub struct Node {
    pub parent: NodeId,
    pub inode: u64,
    pub name: NameRef,
    pub kind: NodeKind,
    pub logical_size: u64,
    pub allocated_size: u64,
    pub links: u32,
    /// Modification time as a Unix timestamp (seconds). 0 when unknown.
    pub mtime: i64,
}

/// A directory is a directory whatever else is said of it, a regular file comes before a link, and
/// what is none of these is something else.
pub proof fn law_kinds_follow_the_flags(is_dir: bool, is_file: bool, is_symlink: bool)
    ensures
        NodeKind::of_flags(is_dir, is_file, is_symlink) == NodeKind::Directory <==> is_dir,
        NodeKind::of_flags(is_dir, is_file, is_symlink) == NodeKind::File <==> is_file && !is_dir,
        NodeKind::of_flags(is_dir, is_file, is_symlink) == NodeKind::Symlink <==> is_symlink
            && !is_file && !is_dir,
{
}

} // verus!
