use crate::fptree::inner::{Inner, TreeNode};
use crate::fptree::leaf::Leaf;
use vstd::prelude::*;

verus! {

/// What leaves and inner nodes have in common.
pub trait Node {
    /// Whether the node is marked as the root.
    spec fn marked_root(&self) -> bool;

    /// Whether the node is a leaf.
    spec fn leaf_kind(&self) -> bool;

    /// Whether the node is as full as it may be.
    spec fn filled(&self) -> bool;

    fn is_root(&self) -> (root: bool)
        ensures
            root == self.marked_root(),
    ;

    fn set_root(&mut self, is_root: bool)
        ensures
            final(self).marked_root() == is_root,
            final(self).leaf_kind() == old(self).leaf_kind(),
            final(self).filled() == old(self).filled(),
    ;

    fn is_leaf(&self) -> (leaf: bool)
        ensures
            leaf == self.leaf_kind(),
    ;

    /// Whether an insert may make the node split.
    fn may_need_split(&self) -> (full: bool)
        ensures
            full == self.filled(),
    ;
}

impl Node for Leaf {
    open spec fn marked_root(&self) -> bool {
        self.root_flag()
    }

    open spec fn leaf_kind(&self) -> bool {
        true
    }

    open spec fn filled(&self) -> bool {
        self.header().full()
    }

    fn is_root(&self) -> (root: bool) {
        Leaf::is_root(self)
    }

    fn set_root(&mut self, is_root: bool) {
        Leaf::set_root(self, is_root)
    }

    fn is_leaf(&self) -> (leaf: bool) {
        Leaf::is_leaf(self)
    }

    fn may_need_split(&self) -> (full: bool) {
        Leaf::may_need_split(self)
    }
}

impl Node for Inner {
    open spec fn marked_root(&self) -> bool {
        self.root_flag()
    }

    open spec fn leaf_kind(&self) -> bool {
        false
    }

    open spec fn filled(&self) -> bool {
        self.keys().len() == 3
    }

    fn is_root(&self) -> (root: bool) {
        Inner::is_root(self)
    }

    fn set_root(&mut self, is_root: bool) {
        Inner::set_root(self, is_root)
    }

    fn is_leaf(&self) -> (leaf: bool) {
        Inner::is_leaf(self)
    }

    fn may_need_split(&self) -> (full: bool) {
        Inner::may_need_split(self)
    }
}

impl Node for TreeNode {
    open spec fn marked_root(&self) -> bool {
        self.root_flag()
    }

    open spec fn leaf_kind(&self) -> bool {
        *self is Leaf
    }

    open spec fn filled(&self) -> bool {
        match *self {
            TreeNode::Leaf(leaf) => leaf.header().full(),
            TreeNode::Inner(inner) => inner.keys().len() == 3,
        }
    }

    fn is_root(&self) -> (root: bool) {
        TreeNode::is_root(self)
    }

    fn set_root(&mut self, is_root: bool) {
        TreeNode::set_root(self, is_root)
    }

    fn is_leaf(&self) -> (leaf: bool) {
        TreeNode::is_leaf(self)
    }

    fn may_need_split(&self) -> (full: bool) {
        TreeNode::may_need_split(self)
    }
}

} // verus!
