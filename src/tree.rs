//! Binary tree nodes and table data.

use vstd::prelude::*;

verus! {

/// A binary tree node owning its two optional subtrees.
pub struct TreeNode<T> {
    pub value: T,
    pub lnode: Option<Box<TreeNode<T>>>,
    pub rnode: Option<Box<TreeNode<T>>>,
}

impl<T> TreeNode<T> {
    /// Number of levels of the tree rooted here: one for a leaf.
    pub open spec fn depth(&self) -> nat
        decreases self,
    {
        let l: nat = match self.lnode {
            Some(b) => b.depth() + 1,
            None => 1,
        };
        let r: nat = match self.rnode {
            Some(b) => b.depth() + 1,
            None => 1,
        };
        if l >= r {
            l
        } else {
            r
        }
    }

    pub fn new(value: T, lnode: Option<Box<TreeNode<T>>>, rnode: Option<Box<TreeNode<T>>>) -> (r: Self)
        ensures
            r.value == value,
            r.lnode == lnode,
            r.rnode == rnode,
    {
        TreeNode { value, lnode, rnode }
    }

    pub fn new_leaf(value: T) -> (r: Self)
        ensures
            r.value == value,
            r.lnode is None,
            r.rnode is None,
            r.depth() == 1,
    {
        TreeNode { value, lnode: None, rnode: None }
    }

    /// The depth of the tree rooted here.
    pub fn degree(&self) -> (r: usize)
        requires
            self.depth() <= usize::MAX,
        ensures
            r == self.depth(),
        decreases self,
    {
        let l: usize = match &self.lnode {
            Some(b) => b.degree() + 1,
            None => 1,
        };
        let r: usize = match &self.rnode {
            Some(b) => b.degree() + 1,
            None => 1,
        };
        if l >= r {
            l
        } else {
            r
        }
    }
}

/// One cell of a table.
pub struct TableCell<T> {
    pub value: T,
}

/// A table of cells, row by row, with its column and row counts.
pub struct Table<T> {
    pub cells: Vec<Vec<TableCell<T>>>,
    pub width: usize,
    pub height: usize,
}

} // verus!
