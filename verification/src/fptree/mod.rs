pub mod inner;
pub mod leaf;
pub mod leaf_manager;
pub mod node;

use crate::amphis_error::StoreError;
use crate::fptree::inner::{lemma_new_root, lemma_same_but_flag, Inner, TreeNode};
use crate::fptree::leaf::{fits_empty_page, Leaf};
use crate::fptree::leaf_manager::{fits_page, LeafManager, LeafManagerView};
use crate::util::key_order::key_lt;
use vstd::prelude::*;
use vstd::slice::slice_to_vec;

verus! {

/// One generation of the tree: the root, the leaf file that its leaves
/// live in, and how often the root has split.
pub struct FPTree {
    root: TreeNode,
    leaf_manager: LeafManager,
    root_split_count: usize,
}

impl FPTree {
    pub closed spec fn root(&self) -> TreeNode {
        self.root
    }

    /// The leaf file as it stands.
    pub closed spec fn manager(&self) -> LeafManagerView {
        self.leaf_manager@
    }

    /// How often the root has split, as far as it can be counted.
    pub closed spec fn split_count(&self) -> usize {
        self.root_split_count
    }

    /// The tree is sound: its root is, with keys of any size.
    pub open spec fn wf(&self) -> bool {
        &&& self.root().wf(self.manager(), None, None)
        &&& self.root().chained(None)
        &&& self.root().first_id() == 0
    }

    /// Whether storing `key` makes the root split.
    pub open spec fn splits_on(&self, key: Seq<u8>) -> bool {
        self.root().splits_on(self.manager(), key)
    }

    /// The root split into `left` and the second child of the new root,
    /// which has the split key for its only separator and `left`, no
    /// longer marked as the root, for its first child.
    pub open spec fn root_split_from(
        &self,
        before: FPTree,
        key: Seq<u8>,
        value: Seq<u8>,
        left: TreeNode,
    ) -> bool {
        &&& self.root() matches TreeNode::Inner(root)
        &&& root.keys().len() == 1
        &&& root.children().len() == 2
        &&& root.root_flag()
        &&& !root.children()[0].root_flag()
        &&& root.children()[0].same_but_flag(left)
        &&& left.reshaped(
            self.manager(),
            Some((root.keys()[0], root.children()[1])),
            before.root(),
            before.manager(),
            key,
            value,
        )
    }

    /// The shape of the tree after the pair was stored in `before`: the
    /// root as `TreeNode::reshaped` says, under a new root where it split.
    pub open spec fn reshaped_from(&self, before: FPTree, key: Seq<u8>, value: Seq<u8>) -> bool {
        if before.splits_on(key) {
            exists|left: TreeNode| self.root_split_from(before, key, value, left)
        } else {
            self.root().reshaped(self.manager(), None, before.root(), before.manager(), key, value)
        }
    }

    /// This tree is `before` after the pair was stored in it: sound, with
    /// the pair in it and every other key as before, in the shape that
    /// `reshaped_from` says, and with the split of the root counted.
    pub open spec fn written_from(&self, before: FPTree, key: Seq<u8>, value: Seq<u8>) -> bool {
        &&& self.wf()
        &&& forall|k: Seq<u8>|
            self.lookup(k) == (if k == key {
                Some(value)
            } else {
                before.lookup(k)
            })
        &&& self.reshaped_from(before, key, value)
        &&& self.split_count() == (if before.splits_on(key) && before.split_count()
            < usize::MAX {
            (before.split_count() + 1) as usize
        } else {
            before.split_count()
        })
    }

    /// The value stored for `key`: an empty one for a deleted key, `None`
    /// for a key that the tree does not know.
    pub open spec fn lookup(&self, key: Seq<u8>) -> Option<Seq<u8>> {
        self.root().lookup(self.manager(), key)
    }

    /// A tree with one empty leaf on the first page of a new leaf file.
    pub fn new() -> (tree: FPTree)
        ensures
            tree.wf(),
            tree.split_count() == 0,
            forall|key: Seq<u8>| tree.lookup(key) is None,
            tree.root() is Leaf,
            tree.root()->Leaf_0.id() == 0,
            tree.manager().data.len() == 16777216,
            tree.manager().mapped.len() == 16,
    {
        let mut leaf_manager: LeafManager = LeafManager::new(Vec::new(), true);
        let mut first_leaf: Leaf = match Leaf::new(&mut leaf_manager) {
            Ok(leaf) => leaf,
            Err(_) => {
                proof {
                    assert(false);
                }
                vstd::pervasive::unreached()
            },
        };
        let ghost created = first_leaf;
        first_leaf.set_root(true);
        proof {
            crate::fptree::leaf::lemma_leaf_same(created, first_leaf, leaf_manager@);
        }
        FPTree { root: TreeNode::Leaf(first_leaf), leaf_manager, root_split_count: 0 }
    }

    /// The leaf file of a sound tree is sound.
    pub proof fn lemma_manager_wf(&self)
        requires
            self.wf(),
        ensures
            self.manager().wf(),
    {
        crate::fptree::inner::lemma_node_manager_wf(self.root(), self.manager(), None, None);
    }

    /// The sibling chain of a sound tree leads from the first page through
    /// all leaves of the tree, from left to right.
    pub proof fn lemma_tree_chain(&self)
        requires
            self.wf(),
        ensures
            self.manager().leaf_chain(0, self.manager().mapped.len()) == Some(
                crate::fptree::inner::leaf_ids(self.root().leaves()),
            ),
    {
        let m = self.manager();
        let root = self.root();
        crate::fptree::inner::lemma_leaf_count(root, m, None, None);
        assert forall|i: int| 0 <= i < root.leaves().len() implies m.is_mapped(
            #[trigger] root.leaves()[i].id() as int,
        ) by {
            crate::fptree::inner::lemma_leaves_sound(root, m, None, None, i);
        }
        crate::fptree::inner::lemma_leaf_chain(root, m, m, None, None, None, m.mapped.len());
        let ids = crate::fptree::inner::leaf_ids(root.leaves());
        assert(ids + Seq::<usize>::empty() =~= ids);
    }

    /// The leaf file of this tree.
    pub fn get_leaf_manager(&self) -> (leaf_manager: &LeafManager)
        ensures
            leaf_manager@ == self.manager(),
    {
        &self.leaf_manager
    }

    /// The root of this tree.
    pub fn get_root(&self) -> (root: &TreeNode)
        ensures
            *root == self.root(),
    {
        &self.root
    }

    pub fn get_root_split_count(&self) -> (count: usize)
        ensures
            count == self.split_count(),
    {
        self.root_split_count
    }

    /// Puts a new root over the root that split and its new sibling.
    fn split_root(&mut self, key: Vec<u8>, new_child: TreeNode)
        ensures
            final(self).manager() == old(self).manager(),
            final(self).root() is Inner,
            final(self).root()->Inner_0.keys() == seq![key@],
            final(self).root()->Inner_0.children().len() == 2,
            final(self).root()->Inner_0.children()[0].same_but_flag(old(self).root()),
            final(self).root()->Inner_0.children()[1] == new_child,
            final(self).root()->Inner_0.root_flag(),
            !final(self).root()->Inner_0.children()[0].root_flag(),
            final(self).split_count() == (if old(self).split_count() < usize::MAX {
                (old(self).split_count() + 1) as usize
            } else {
                old(self).split_count()
            }),
    {
        let mut new_root: Inner = Inner::new();
        new_root.set_root(true);
        new_root.add_key(&key);
        let mut old_root: TreeNode = TreeNode::Inner(Inner::new());
        core::mem::swap(&mut self.root, &mut old_root);
        old_root.set_root(false);
        new_root.add_child(old_root);
        new_root.add_child(new_child);
        self.root = TreeNode::Inner(new_root);
        if self.root_split_count < usize::MAX {
            self.root_split_count = self.root_split_count + 1;
        }
    }

    /// Stores `key` with `value`, replacing what the tree had for `key`.
    /// A pair that does not fit into one page is refused. Space runs out
    /// only where the leaf file cannot grow by eighteen groups of pages any
    /// more: one for the new leaf of a split, one for each pair that moves
    /// there, one for the pair itself.
    #[verifier::rlimit(50)]
    pub fn put(&mut self, key: &[u8], value: &[u8]) -> (res: Result<(), StoreError>)
        requires
            old(self).wf(),
        ensures
            final(self).manager().grew_from(old(self).manager(), 18),
            !old(self).root().leaf_splits_on(old(self).manager(), key@) ==> final(self).manager().grew_from(
                old(self).manager(),
                1,
            ),
            res is Ok ==> final(self).reshaped_from(*old(self), key@, value@),
            match res {
                Ok(_) => {
                    &&& final(self).wf()
                    &&& fits_page(4096, key@.len() as int, value@.len() as int)
                    &&& forall|k: Seq<u8>|
                        final(self).lookup(k) == (if k == key@ {
                            Some(value@)
                        } else {
                            old(self).lookup(k)
                        })
                    &&& final(self).split_count() == (if old(self).splits_on(key@) && old(
                        self,
                    ).split_count() < usize::MAX {
                        (old(self).split_count() + 1) as usize
                    } else {
                        old(self).split_count()
                    })
                },
                Err(e) => {
                    ||| {
                        &&& e == StoreError::TooLarge
                        &&& !fits_page(4096, key@.len() as int, value@.len() as int)
                        &&& final(self).wf()
                        &&& final(self).split_count() == old(self).split_count()
                        &&& forall|k: Seq<u8>| final(self).lookup(k) == old(self).lookup(k)
                    }
                    ||| {
                        &&& e == StoreError::NoSpace
                        &&& fits_page(4096, key@.len() as int, value@.len() as int)
                        &&& !old(self).manager().room(18)
                    }
                },
            },
    {
        if !fits_empty_page(key.len(), value.len()) {
            return Err(StoreError::TooLarge);
        }
        let key: Vec<u8> = slice_to_vec(key);
        let value: Vec<u8> = slice_to_vec(value);
        let ghost before = self.root;
        let ghost a = self.leaf_manager@;
        match self.root.insert(
            &mut self.leaf_manager,
            &key,
            &value,
            Ghost(None),
            Ghost(None),
            Ghost(None),
        ) {
            Ok(None) => Ok(()),
            Ok(Some((split_key, sibling))) => {
                let ghost left = self.root;
                let ghost up = split_key@;
                self.split_root(split_key, sibling);
                proof {
                    let m = self.leaf_manager@;
                    let root = self.root->Inner_0;
                    let moved = root.children()[0];
                    lemma_same_but_flag(left, moved, m, None, Some(up));
                    assert(root.children() =~= seq![moved, sibling]);
                    assert forall|k: Seq<u8>|
                        (if k == key@ {
                            Some(value@)
                        } else {
                            before.lookup(a, k)
                        }) == (if key_lt(k, up) {
                            moved.lookup(m, k)
                        } else {
                            sibling.lookup(m, k)
                        }) by {
                        assert(moved.lookup(m, k) == left.lookup(m, k));
                    }
                    assert forall|p: int| !(moved.owned(p) && sibling.owned(p)) by {
                        assert(moved.owned(p) == left.owned(p));
                    }
                    lemma_new_root(root, moved, sibling, up, m, before, a, key@, value@);
                    assert(self.root_split_from(*old(self), key@, value@, left));
                }
                Ok(())
            },
            Err(e) => Err(e),
        }
    }

    /// The value stored for `key`: an empty one where the key was deleted,
    /// `None` where the tree does not know the key.
    pub fn get(&self, key: &[u8]) -> (res: Result<Option<Vec<u8>>, StoreError>)
        requires
            self.wf(),
        ensures
            match res {
                Ok(Some(value)) => self.lookup(key@) == Some(value@),
                Ok(None) => self.lookup(key@) is None,
                Err(_) => false,
            },
    {
        let key: Vec<u8> = slice_to_vec(key);
        self.root.get(&self.leaf_manager, &key)
    }

    /// Marks `key` as deleted: stores it with an empty value.
    pub fn delete(&mut self, key: &[u8]) -> (res: Result<(), StoreError>)
        requires
            old(self).wf(),
        ensures
            final(self).manager().grew_from(old(self).manager(), 18),
            !old(self).root().leaf_splits_on(old(self).manager(), key@) ==> final(self).manager().grew_from(
                old(self).manager(),
                1,
            ),
            res is Ok ==> final(self).reshaped_from(*old(self), key@, Seq::<u8>::empty()),
            match res {
                Ok(_) => {
                    &&& final(self).wf()
                    &&& forall|k: Seq<u8>|
                        final(self).lookup(k) == (if k == key@ {
                            Some(Seq::<u8>::empty())
                        } else {
                            old(self).lookup(k)
                        })
                    &&& final(self).split_count() == (if old(self).splits_on(key@) && old(
                        self,
                    ).split_count() < usize::MAX {
                        (old(self).split_count() + 1) as usize
                    } else {
                        old(self).split_count()
                    })
                },
                Err(e) => {
                    ||| {
                        &&& e == StoreError::TooLarge
                        &&& !fits_page(4096, key@.len() as int, 0)
                        &&& final(self).wf()
                        &&& final(self).split_count() == old(self).split_count()
                        &&& forall|k: Seq<u8>| final(self).lookup(k) == old(self).lookup(k)
                    }
                    ||| {
                        &&& e == StoreError::NoSpace
                        &&& fits_page(4096, key@.len() as int, 0)
                        &&& !old(self).manager().room(18)
                    }
                },
            },
    {
        let tombstone: Vec<u8> = Vec::new();
        self.put(key, tombstone.as_slice())
    }
}

} // verus!
