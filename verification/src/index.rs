//! A crawled tree as a value: the root path with its sorted children.

use vstd::prelude::*;

use crate::entry::{Entry, entries_sorted};

verus! {

/// One tree's index: the root it was crawled from and its entries, sorted
/// in entry order.
#[derive(Debug)]
pub struct Index {
    pub path: Vec<u8>,
    pub children: Vec<Entry>,
}

impl Index {
    /// Wraps a crawled root and its sorted entries.
    pub fn new(path: Vec<u8>, children: Vec<Entry>) -> (r: Index)
        requires
            entries_sorted(children@),
        ensures
            r.path == path,
            r.children == children,
    {
        Index { path, children }
    }

    pub fn path(&self) -> (r: &Vec<u8>)
        ensures
            *r == self.path,
    {
        &self.path
    }

    pub fn children(&self) -> (r: &Vec<Entry>)
        ensures
            *r == self.children,
    {
        &self.children
    }

    pub fn len(&self) -> (r: usize)
        ensures
            r == self.children@.len(),
    {
        self.children.len()
    }

    /// Destructive decomposition: hands the root and the entries to the
    /// caller.
    pub fn decompose(self) -> (r: (Vec<u8>, Vec<Entry>))
        ensures
            r.0 == self.path,
            r.1 == self.children,
    {
        (self.path, self.children)
    }
}

} // verus!
