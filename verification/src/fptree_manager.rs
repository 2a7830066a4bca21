use crate::amphis_error::StoreError;
use crate::fptree::leaf_manager::fits_page;
use crate::fptree::FPTree;
use vstd::prelude::*;

verus! {

/// Owns the tree that takes the writes and, while a flush is under way,
/// the tree that takes them in its place.
///
/// A flush that is put off because writers are at work, or that fails
/// after `prepare_flush` has put the new tree in place, leaves the new tree
/// there, and `need_flush` is then false. Two ways out are open: to run
/// the flush again and call `switch_fptree` once it has succeeded; or to
/// give the flush up and keep both trees, which `get` asks in the right
/// order for as long as they are there. `prepare_flush` takes neither: it
/// reports nothing to do while the new tree is in place. The first way is
/// open through `resume_flush`, which says whether the flush that was
/// begun can go on; `get_fptree` still hands out the tree that is to be
/// written.
pub struct FPTreeManager {
    fptree: FPTree,
    new_fptree: Option<FPTree>,
    fptree_id: usize,
    root_split_threshold: usize,
}

impl FPTreeManager {
    /// The tree that is written out by the next flush.
    pub closed spec fn current(&self) -> FPTree {
        self.fptree
    }

    /// The tree that takes the writes while a flush is under way.
    pub closed spec fn incoming(&self) -> Option<FPTree> {
        self.new_fptree
    }

    /// The generation of the current tree.
    pub closed spec fn generation(&self) -> usize {
        self.fptree_id
    }

    /// How often the root may split before the tree is flushed.
    pub closed spec fn threshold(&self) -> usize {
        self.root_split_threshold
    }

    /// The tree that takes the writes: the incoming one while a flush is
    /// under way, else the current one.
    pub open spec fn writing(&self) -> FPTree {
        match self.incoming() {
            Some(tree) => tree,
            None => self.current(),
        }
    }

    /// Both trees are sound.
    pub open spec fn wf(&self) -> bool {
        &&& self.current().wf()
        &&& self.incoming() matches Some(tree) ==> tree.wf()
    }

    /// The value stored for `key`: that of the incoming tree where it
    /// knows the key, else that of the current tree.
    pub open spec fn lookup(&self, key: Seq<u8>) -> Option<Seq<u8>> {
        match self.incoming() {
            Some(tree) => if tree.lookup(key) is Some {
                tree.lookup(key)
            } else {
                self.current().lookup(key)
            },
            None => self.current().lookup(key),
        }
    }

    /// Whether a flush is due: none is under way, and the root of the
    /// current tree has split as often as the threshold says.
    pub open spec fn flush_due(&self) -> bool {
        self.incoming() is None && self.current().split_count() >= self.threshold()
    }

    /// Whether a flush is wanted: one is due, or one was begun and has not
    /// ended.
    pub open spec fn flush_wanted(&self) -> bool {
        self.flush_due() || self.incoming() is Some
    }

    /// A manager with an empty tree of generation 0.
    pub fn new(root_split_threshold: usize) -> (manager: FPTreeManager)
        ensures
            manager.wf(),
            manager.generation() == 0,
            manager.threshold() == root_split_threshold,
            manager.incoming() is None,
            forall|key: Seq<u8>| manager.lookup(key) is None,
            manager.current().manager().data.len() == 16777216,
            manager.current().manager().mapped.len() == 16,
    {
        FPTreeManager {
            fptree: FPTree::new(),
            new_fptree: None,
            fptree_id: 0,
            root_split_threshold,
        }
    }

    pub fn need_flush(&self) -> (due: bool)
        ensures
            due == self.flush_due(),
    {
        self.new_fptree.is_none() && self.fptree.get_root_split_count()
            >= self.root_split_threshold
    }

    /// The generation of the current tree.
    pub fn get_fptree_id(&self) -> (id: usize)
        ensures
            id == self.generation(),
    {
        self.fptree_id
    }

    /// The tree that is written out by the next flush.
    pub fn get_fptree(&self) -> (tree: &FPTree)
        ensures
            *tree == self.current(),
    {
        &self.fptree
    }

    /// The tree that takes the writes while a flush is under way.
    pub fn get_new_fptree(&self) -> (tree: Option<&FPTree>)
        ensures
            match tree {
                Some(tree) => self.incoming() == Some(*tree),
                None => self.incoming() is None,
            },
    {
        self.new_fptree.as_ref()
    }

    /// Stores `key` with `value` in the tree that takes the writes: in the
    /// incoming tree while a flush is under way, which leaves the current
    /// tree as it is, else in the current tree.
    pub fn put(&mut self, key: &[u8], value: &[u8]) -> (res: Result<(), StoreError>)
        requires
            old(self).wf(),
        ensures
            final(self).generation() == old(self).generation(),
            final(self).threshold() == old(self).threshold(),
            final(self).incoming() is Some == old(self).incoming() is Some,
            old(self).incoming() is Some ==> final(self).current() == old(self).current(),
            final(self).writing().manager().grew_from(old(self).writing().manager(), 18),
            match res {
                Ok(_) => {
                    &&& final(self).wf()
                    &&& fits_page(4096, key@.len() as int, value@.len() as int)
                    &&& forall|k: Seq<u8>|
                        final(self).lookup(k) == (if k == key@ {
                            Some(value@)
                        } else {
                            old(self).lookup(k)
                        })
                    &&& final(self).writing().written_from(old(self).writing(), key@, value@)
                },
                Err(e) => {
                    ||| {
                        &&& e == StoreError::TooLarge
                        &&& !fits_page(4096, key@.len() as int, value@.len() as int)
                        &&& final(self).wf()
                        &&& final(self).flush_due() == old(self).flush_due()
                        &&& forall|k: Seq<u8>| final(self).lookup(k) == old(self).lookup(k)
                    }
                    ||| {
                        &&& e == StoreError::NoSpace
                        &&& fits_page(4096, key@.len() as int, value@.len() as int)
                        &&& !old(self).writing().manager().room(18)
                    }
                },
            },
    {
        match &mut self.new_fptree {
            Some(tree) => tree.put(key, value),
            None => self.fptree.put(key, value),
        }
    }

    /// The value stored for `key`: an empty one where the key was deleted,
    /// `None` where neither tree knows the key.
    pub fn get(&self, key: &[u8]) -> (res: Result<Option<Vec<u8>>, StoreError>)
        requires
            self.wf(),
        ensures
            match res {
                Ok(Some(value)) => self.lookup(key@) == Some(value@),
                Ok(None) => self.lookup(key@) is None,
                Err(_) => false,
            },
    {
        match &self.new_fptree {
            Some(tree) => {
                match tree.get(key) {
                    Ok(Some(value)) => {
                        return Ok(Some(value));
                    },
                    Ok(None) => {},
                    Err(e) => {
                        return Err(e);
                    },
                }
            },
            None => {},
        }
        self.fptree.get(key)
    }

    /// Marks `key` as deleted in the tree that takes the writes.
    pub fn delete(&mut self, key: &[u8]) -> (res: Result<(), StoreError>)
        requires
            old(self).wf(),
        ensures
            final(self).generation() == old(self).generation(),
            final(self).threshold() == old(self).threshold(),
            final(self).incoming() is Some == old(self).incoming() is Some,
            old(self).incoming() is Some ==> final(self).current() == old(self).current(),
            final(self).writing().manager().grew_from(old(self).writing().manager(), 18),
            match res {
                Ok(_) => {
                    &&& final(self).wf()
                    &&& forall|k: Seq<u8>|
                        final(self).lookup(k) == (if k == key@ {
                            Some(Seq::<u8>::empty())
                        } else {
                            old(self).lookup(k)
                        })
                    &&& final(self).writing().written_from(
                        old(self).writing(),
                        key@,
                        Seq::<u8>::empty(),
                    )
                },
                Err(e) => {
                    ||| {
                        &&& e == StoreError::TooLarge
                        &&& !fits_page(4096, key@.len() as int, 0)
                        &&& final(self).wf()
                        &&& final(self).flush_due() == old(self).flush_due()
                        &&& forall|k: Seq<u8>| final(self).lookup(k) == old(self).lookup(k)
                    }
                    ||| {
                        &&& e == StoreError::NoSpace
                        &&& fits_page(4096, key@.len() as int, 0)
                        &&& !old(self).writing().manager().room(18)
                    }
                },
            },
    {
        let tombstone: Vec<u8> = Vec::new();
        self.put(key, tombstone.as_slice())
    }

    /// Gets a flush under way where one is due: puts an empty tree of the
    /// next generation in place to take the writes. Returns whether the
    /// current tree can be written out now, which it cannot while writers
    /// are still at work on it. Where no flush is due, and so where a new
    /// tree is in place already, nothing changes and nothing is to be
    /// written.
    pub fn prepare_flush(&mut self, writers_active: bool) -> (ready: bool)
        requires
            old(self).wf(),
        ensures
            final(self).wf(),
            final(self).current() == old(self).current(),
            final(self).generation() == old(self).generation(),
            final(self).threshold() == old(self).threshold(),
            forall|key: Seq<u8>| final(self).lookup(key) == old(self).lookup(key),
            ready == (old(self).flush_due() && !writers_active),
            if old(self).flush_due() {
                final(self).incoming() matches Some(tree) && (forall|key: Seq<u8>|
                    tree.lookup(key) is None) && tree.split_count() == 0
                    && tree.manager().data.len() == 16777216 && tree.manager().mapped.len() == 16
            } else {
                final(self).incoming() == old(self).incoming()
            },
    {
        // another flush may have got under way since the signal was sent
        if !self.need_flush() {
            return false;
        }
        self.new_fptree = Some(FPTree::new());
        // writers may still be at work on the current tree
        if writers_active {
            return false;
        }
        true
    }

    /// Whether a flush that was begun and has not ended can go on: the new
    /// tree is in place, because the flush was put off or has failed, and
    /// no writer is at work on the current tree.
    pub fn resume_flush(&self, writers_active: bool) -> (ready: bool)
        ensures
            ready == (self.incoming() is Some && !writers_active),
    {
        self.new_fptree.is_some() && !writers_active
    }

    /// Ends a flush: the tree that took the writes meanwhile becomes the
    /// current tree of the next generation. Returns the generation of the
    /// tree that was current, whose leaf file can go.
    pub fn switch_fptree(&mut self) -> (retired: usize)
        requires
            old(self).wf(),
            old(self).incoming() is Some,
            old(self).generation() < usize::MAX,
        ensures
            final(self).wf(),
            retired == old(self).generation(),
            final(self).generation() == old(self).generation() + 1,
            final(self).threshold() == old(self).threshold(),
            final(self).incoming() is None,
            Some(final(self).current()) == old(self).incoming(),
            forall|key: Seq<u8>| final(self).lookup(key) == old(self).incoming()->0.lookup(key),
    {
        let deleted_id: usize = self.fptree_id;
        match self.new_fptree.take() {
            Some(tree) => {
                self.fptree = tree;
                self.fptree_id = self.fptree_id + 1;
            },
            None => {
                proof {
                    assert(false);
                }
            },
        }
        deleted_id
    }
}

} // verus!
