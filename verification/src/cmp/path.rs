//! Named comparison outcomes for the directory-by-directory walk.

use vstd::prelude::*;

verus! {

/// How one name compares between the two sides.
#[derive(Debug, Clone, Copy, PartialEq, Eq)]
pub enum Status {
    /// Present on both sides with identical content.
    Equal,
    /// Present on both sides with differing content.
    Partial,
    /// Present only on the right.
    MissingLeft,
    /// Present only on the left.
    MissingRight,
}

/// A compared directory: its name, its own status, and its compared
/// children.
#[derive(Debug)]
pub struct Dir {
    pub name: Vec<u8>,
    pub status: Status,
    pub children: Vec<TreeNode>,
}

/// A compared regular file: its name and its status.
#[derive(Debug)]
pub struct File {
    pub name: Vec<u8>,
    pub status: Status,
}

/// One compared child of a directory.
#[derive(Debug)]
pub enum TreeNode {
    Dir(Dir),
    File(File),
}

impl Dir {
    pub fn name(&self) -> (r: &Vec<u8>)
        ensures
            *r == self.name,
    {
        &self.name
    }

    pub fn status(&self) -> (r: Status)
        ensures
            r == self.status,
    {
        self.status
    }
}

impl File {
    pub fn name(&self) -> (r: &Vec<u8>)
        ensures
            *r == self.name,
    {
        &self.name
    }

    pub fn status(&self) -> (r: Status)
        ensures
            r == self.status,
    {
        self.status
    }
}

impl TreeNode {
    pub fn name(&self) -> (r: &Vec<u8>)
        ensures
            *r == (match self {
                TreeNode::Dir(d) => d.name,
                TreeNode::File(f) => f.name,
            }),
    {
        match self {
            TreeNode::Dir(d) => d.name(),
            TreeNode::File(f) => f.name(),
        }
    }

    pub fn status(&self) -> (r: Status)
        ensures
            r == (match self {
                TreeNode::Dir(d) => d.status,
                TreeNode::File(f) => f.status,
            }),
    {
        match self {
            TreeNode::Dir(d) => d.status(),
            TreeNode::File(f) => f.status(),
        }
    }
}

} // verus!
