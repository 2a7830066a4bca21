use crate::amphis_error::StoreError;
use crate::flush_soundness::{lemma_flushed_tree, table_view};
use crate::flush_writer::{flush_result, FlushSignal, FlushWriter};
use crate::fptree::leaf_manager::fits_page;
use crate::fptree_manager::FPTreeManager;
use crate::sstable_manager::{
    lemma_register_newest, levels_with, SstableManager, Table, TableId, TableInfo, TableView,
};
use vstd::prelude::*;

verus! {

/// The store: the trees that take the writes, the tables that they were
/// written out to, and the writer that writes them out.
pub struct KVS {
    fptree_manager: FPTreeManager,
    sstable_manager: SstableManager,
    flush_writer: FlushWriter,
}

/// What a signal to the flush worker led to.
#[derive(Debug, Clone, Copy, PartialEq, Eq, Structural)]
pub enum FlushOutcome {
    /// No flush was due, or writers were still at work on the tree.
    Idle,
    /// The tree of generation `retired` was written out as table
    /// `table_id`: the file of the table is to be written and the leaf file
    /// of the generation to be removed.
    Flushed { table_id: TableId, retired: usize },
    /// The worker is to end.
    Stop,
}

impl KVS {
    pub closed spec fn trees(&self) -> FPTreeManager {
        self.fptree_manager
    }

    pub closed spec fn tables(&self) -> SstableManager {
        self.sstable_manager
    }

    pub closed spec fn writer(&self) -> FlushWriter {
        self.flush_writer
    }

    /// The trees, the tables and the writer are sound, and the writer
    /// gives the next table an id above those of all tables.
    pub open spec fn wf(&self) -> bool {
        &&& self.trees().wf()
        &&& self.tables().wf()
        &&& self.writer().wf()
        &&& self.tables().ids_below(self.writer().next_id() as int)
    }

    /// What is stored for `key`: what the trees have, else what the tables
    /// have. A deleted key is stored with an empty value.
    pub open spec fn stored(&self, key: Seq<u8>) -> Result<Option<Seq<u8>>, StoreError> {
        match self.trees().lookup(key) {
            Some(value) => Ok(Some(value)),
            None => self.tables().lookup(key),
        }
    }

    /// What a reader finds for `key`: what is stored, but nothing for a
    /// deleted key.
    pub open spec fn found(&self, key: Seq<u8>) -> Result<Option<Seq<u8>>, StoreError> {
        match self.stored(key) {
            Ok(Some(value)) => if value.len() == 0 {
                Ok(None)
            } else {
                Ok(Some(value))
            },
            other => other,
        }
    }

    /// A store with an empty tree over the tables of `sstable_manager`.
    pub fn new(
        root_split_threshold: usize,
        sstable_manager: SstableManager,
        flush_writer: FlushWriter,
    ) -> (kvs: KVS)
        requires
            sstable_manager.wf(),
            flush_writer.wf(),
            sstable_manager.ids_below(flush_writer.next_id() as int),
        ensures
            kvs.wf(),
            kvs.tables() == sstable_manager,
            kvs.writer() == flush_writer,
            kvs.trees().threshold() == root_split_threshold,
            kvs.trees().generation() == 0,
            kvs.trees().incoming() is None,
            forall|key: Seq<u8>| kvs.trees().lookup(key) is None,
            kvs.trees().current().manager().data.len() == 16777216,
            kvs.trees().current().manager().mapped.len() == 16,
            forall|key: Seq<u8>| kvs.stored(key) == sstable_manager.lookup(key),
    {
        KVS {
            fptree_manager: FPTreeManager::new(root_split_threshold),
            sstable_manager,
            flush_writer,
        }
    }

    /// Takes the store apart into its trees, its tables and its writer.
    pub fn into_parts(self) -> (parts: (FPTreeManager, SstableManager, FlushWriter))
        ensures
            parts.0 == self.trees(),
            parts.1 == self.tables(),
            parts.2 == self.writer(),
    {
        (self.fptree_manager, self.sstable_manager, self.flush_writer)
    }

    pub fn get_fptree_manager(&self) -> (manager: &FPTreeManager)
        ensures
            *manager == self.trees(),
    {
        &self.fptree_manager
    }

    pub fn get_sstable_manager(&self) -> (manager: &SstableManager)
        ensures
            *manager == self.tables(),
    {
        &self.sstable_manager
    }

    pub fn get_flush_writer(&self) -> (writer: &FlushWriter)
        ensures
            *writer == self.writer(),
    {
        &self.flush_writer
    }

    /// Stores `key` with `value`, in the incoming tree while a flush is
    /// under way. Returns the signal that is to be sent to the flush
    /// worker where a flush has become due.
    pub fn put(&mut self, key: &[u8], value: &[u8]) -> (res: Result<Option<FlushSignal>, StoreError>)
        requires
            old(self).wf(),
        ensures
            final(self).tables() == old(self).tables(),
            final(self).writer() == old(self).writer(),
            final(self).trees().generation() == old(self).trees().generation(),
            final(self).trees().threshold() == old(self).trees().threshold(),
            final(self).trees().incoming() is Some == old(self).trees().incoming() is Some,
            old(self).trees().incoming() is Some ==> final(self).trees().current() == old(
                self,
            ).trees().current(),
            final(self).trees().writing().manager().grew_from(
                old(self).trees().writing().manager(),
                18,
            ),
            match res {
                Ok(signal) => {
                    &&& final(self).wf()
                    &&& forall|k: Seq<u8>|
                        final(self).stored(k) == (if k == key@ {
                            Ok::<Option<Seq<u8>>, StoreError>(Some(value@))
                        } else {
                            old(self).stored(k)
                        })
                    &&& final(self).follows(*old(self), Step::Put(key@, value@))
                    &&& signal == (if final(self).trees().flush_due() {
                        Some(FlushSignal::TryFlush)
                    } else {
                        None
                    })
                    &&& final(self).trees().writing().written_from(
                        old(self).trees().writing(),
                        key@,
                        value@,
                    )
                },
                Err(e) => {
                    ||| {
                        &&& e == StoreError::TooLarge
                        &&& !fits_page(4096, key@.len() as int, value@.len() as int)
                        &&& final(self).wf()
                        &&& forall|k: Seq<u8>| final(self).stored(k) == old(self).stored(k)
                    }
                    ||| {
                        &&& e == StoreError::NoSpace
                        &&& fits_page(4096, key@.len() as int, value@.len() as int)
                        &&& !old(self).trees().writing().manager().room(18)
                    }
                },
            },
    {
        match self.fptree_manager.put(key, value) {
            Ok(_) => {},
            Err(e) => {
                return Err(e);
            },
        }
        if self.fptree_manager.need_flush() {
            Ok(Some(FlushSignal::TryFlush))
        } else {
            Ok(None)
        }
    }

    /// The value of `key`; `None` where the key is not stored or was
    /// deleted.
    pub fn get(&self, key: &[u8]) -> (res: Result<Option<Vec<u8>>, StoreError>)
        requires
            self.wf(),
        ensures
            match (res, self.found(key@)) {
                (Ok(Some(value)), Ok(Some(expected))) => value@ == expected,
                (Ok(None), Ok(None)) => true,
                (Err(e), Err(expected)) => e == expected,
                _ => false,
            },
    {
        let result: Option<Vec<u8>> = match self.fptree_manager.get(key) {
            Ok(Some(value)) => Some(value),
            Ok(None) => match self.sstable_manager.get(key) {
                Ok(found) => found,
                Err(e) => {
                    return Err(e);
                },
            },
            Err(e) => {
                return Err(e);
            },
        };
        match result {
            Some(value) => {
                if value.len() == 0 {
                    Ok(None)
                } else {
                    Ok(Some(value))
                }
            },
            None => Ok(None),
        }
    }

    /// Deletes `key`: stores it with an empty value, which hides what the
    /// tables have for it.
    pub fn delete(&mut self, key: &[u8]) -> (res: Result<(), StoreError>)
        requires
            old(self).wf(),
        ensures
            final(self).tables() == old(self).tables(),
            final(self).writer() == old(self).writer(),
            final(self).trees().generation() == old(self).trees().generation(),
            final(self).trees().threshold() == old(self).trees().threshold(),
            final(self).trees().incoming() is Some == old(self).trees().incoming() is Some,
            old(self).trees().incoming() is Some ==> final(self).trees().current() == old(
                self,
            ).trees().current(),
            final(self).trees().writing().manager().grew_from(
                old(self).trees().writing().manager(),
                18,
            ),
            match res {
                Ok(_) => {
                    &&& final(self).wf()
                    &&& forall|k: Seq<u8>|
                        final(self).stored(k) == (if k == key@ {
                            Ok::<Option<Seq<u8>>, StoreError>(Some(Seq::<u8>::empty()))
                        } else {
                            old(self).stored(k)
                        })
                    &&& final(self).found(key@) == Ok::<Option<Seq<u8>>, StoreError>(None)
                    &&& final(self).follows(*old(self), Step::Delete(key@))
                    &&& final(self).trees().writing().written_from(
                        old(self).trees().writing(),
                        key@,
                        Seq::<u8>::empty(),
                    )
                },
                Err(e) => {
                    ||| {
                        &&& e == StoreError::TooLarge
                        &&& !fits_page(4096, key@.len() as int, 0)
                        &&& final(self).wf()
                        &&& forall|k: Seq<u8>| final(self).stored(k) == old(self).stored(k)
                    }
                    ||| {
                        &&& e == StoreError::NoSpace
                        &&& fits_page(4096, key@.len() as int, 0)
                        &&& !old(self).trees().writing().manager().room(18)
                    }
                },
            },
    {
        self.fptree_manager.delete(key)
    }

    /// Writes the leaves of a leaf file that an earlier run left behind out
    /// as a table and registers the table. Returns the id of the table.
    #[verifier::rlimit(50)]
    pub fn recover_leaf_file(&mut self, image: Vec<u8>) -> (res: Result<TableId, StoreError>)
        requires
            old(self).wf(),
        ensures
            final(self).trees() == old(self).trees(),
            final(self).writer().same_settings(old(self).writer()),
            match res {
                Ok(id) => {
                    &&& final(self).wf()
                    &&& id == old(self).writer().next_id()
                    &&& final(self).writer().next_id() == id + 2
                    &&& crate::flush_writer::recovered_chain(image@) matches Some(chain)
                    &&& exists|table: TableView|
                        {
                            &&& table.id == id
                            &&& table.level == 0
                            &&& exists|info: TableInfo|
                                table == table_view(info, table.data) && flush_result(
                                    crate::flush_writer::recovered_view(image@),
                                    chain,
                                    table.data,
                                    info,
                                )
                            &&& #[trigger] final(self).tables().levels() == levels_with(
                                old(self).tables().levels(),
                                table,
                            )
                            &&& forall|key: Seq<u8>|
                                final(self).tables().lookup(key) == (match table.lookup(key) {
                                    Err(e) => Err(e),
                                    Ok(Some(value)) => Ok(Some(value)),
                                    Ok(None) => old(self).tables().lookup(key),
                                })
                        }
                },
                Err(e) => {
                    &&& final(self).tables() == old(self).tables()
                    &&& final(self).wf()
                    &&& {
                        ||| e == StoreError::OutOfRange && image@.len() / 1048576 >= 0xFFFF_FFFF
                        ||| e == StoreError::BrokenChain && crate::flush_writer::recovered_chain(
                            image@,
                        ) is None
                        ||| crate::flush_writer::recovered_chain(image@) matches Some(chain)
                            && crate::flush_writer::flush_failure(
                            crate::flush_writer::recovered_view(image@),
                            chain,
                            e,
                            old(self).writer().next_id() as int,
                        )
                    }
                },
            },
    {
        let (info, bytes) = match self.flush_writer.flush_with_file(image) {
            Ok(pair) => pair,
            Err(e) => {
                return Err(e);
            },
        };
        let id: TableId = info.id;
        let ghost view = (Table { info, data: bytes })@;
        proof {
            let leaves = choose|leaves: Seq<Seq<(Vec<u8>, Vec<u8>, usize)>>|
                crate::flush_writer::flushed(
                    crate::flush_writer::recovered_view(image@),
                    crate::flush_writer::recovered_chain(image@)->0,
                    leaves,
                    bytes@,
                    info,
                );
        }
        self.sstable_manager.register(info, bytes);
        proof {
            let levels = old(self).tables().levels();
            assert(self.sstable_manager.levels() == levels_with(levels, view));
            assert(view == table_view(info, view.data));
            assert forall|key: Seq<u8>|
                self.tables().lookup(key) == (match view.lookup(key) {
                    Err(e) => Err(e),
                    Ok(Some(value)) => Ok(Some(value)),
                    Ok(None) => old(self).tables().lookup(key),
                }) by {
                lemma_register_newest(levels, view, key);
            }
            crate::sstable_manager::lemma_ids_after_register(levels, view, id as int + 2);
        }
        Ok(id)
    }

    /// Acts on a signal to the flush worker. On `TryFlush`, where a flush
    /// is due, or one was begun and has not ended, and no writer is at
    /// work on the current tree, the tree is written out as a table, the
    /// table is registered, and the tree that took the writes meanwhile
    /// becomes the current tree. Where writers are at work the flush is put
    /// off, and where writing the tree out fails no table is registered:
    /// both trees then stay, and a later `TryFlush` takes the flush up
    /// again.
    #[verifier::rlimit(50)]
    pub fn handle_signal(&mut self, signal: FlushSignal, writers_active: bool) -> (res: Result<
        FlushOutcome,
        StoreError,
    >)
        requires
            old(self).wf(),
        ensures
            final(self).writer().same_settings(old(self).writer()),
            match res {
                Ok(FlushOutcome::Stop) => signal == FlushSignal::Shutdown && *final(self) == *old(
                    self,
                ),
                Ok(FlushOutcome::Idle) => {
                    &&& signal == FlushSignal::TryFlush
                    &&& !old(self).trees().flush_wanted() || writers_active
                        || old(self).trees().generation() == usize::MAX
                    &&& final(self).trees().current() == old(self).trees().current()
                    &&& final(self).wf()
                    &&& final(self).tables() == old(self).tables()
                    &&& final(self).writer() == old(self).writer()
                    &&& forall|key: Seq<u8>| final(self).stored(key) == old(self).stored(key)
                    &&& final(self).follows(*old(self), Step::Flush)
                },
                Ok(FlushOutcome::Flushed { table_id, retired }) => {
                    &&& signal == FlushSignal::TryFlush
                    &&& old(self).trees().flush_wanted()
                    &&& !writers_active
                    &&& final(self).wf()
                    &&& table_id == old(self).writer().next_id()
                    &&& final(self).writer().next_id() == table_id + 2
                    &&& retired == old(self).trees().generation()
                    &&& final(self).trees().generation() == retired + 1
                    &&& final(self).trees().incoming() is None
                    &&& old(self).trees().incoming() matches Some(tree)
                        ==> final(self).trees().current() == tree
                    &&& forall|key: Seq<u8>|
                        final(self).trees().lookup(key) == (match old(self).trees().incoming() {
                            Some(tree) => tree.lookup(key),
                            None => None,
                        })
                    &&& exists|table: TableView|
                        {
                            &&& table.id == table_id
                            &&& table.level == 0
                            &&& #[trigger] final(self).tables().levels() == levels_with(
                                old(self).tables().levels(),
                                table,
                            )
                            &&& forall|key: Seq<u8>|
                                table.lookup(key) == Ok::<Option<Seq<u8>>, StoreError>(
                                    old(self).trees().current().lookup(key),
                                )
                        }
                    &&& forall|key: Seq<u8>| final(self).stored(key) == old(self).stored(key)
                    &&& final(self).follows(*old(self), Step::Flush)
                },
                Err(e) => {
                    &&& e == StoreError::NoSpace
                    &&& old(self).writer().next_id() + 2 > usize::MAX
                    &&& signal == FlushSignal::TryFlush
                    &&& old(self).trees().flush_wanted()
                    &&& !writers_active
                    &&& final(self).wf()
                    &&& final(self).tables() == old(self).tables()
                    &&& final(self).trees().current() == old(self).trees().current()
                    &&& final(self).trees().incoming() is Some
                    &&& forall|key: Seq<u8>| final(self).stored(key) == old(self).stored(key)
                },
            },
    {
        match signal {
            FlushSignal::Shutdown => Ok(FlushOutcome::Stop),
            FlushSignal::TryFlush => {
                if self.fptree_manager.get_fptree_id() == usize::MAX {
                    return Ok(FlushOutcome::Idle);
                }
                if !self.fptree_manager.prepare_flush(writers_active)
                    && !self.fptree_manager.resume_flush(writers_active) {
                    return Ok(FlushOutcome::Idle);
                }
                let (info, bytes) = match self.flush_writer.flush(
                    self.fptree_manager.get_fptree(),
                ) {
                    Ok(pair) => pair,
                    Err(e) => {
                        return Err(e);
                    },
                };
                let table_id: TableId = info.id;
                let ghost view = (Table { info, data: bytes })@;
                proof {
                    let chain = self.fptree_manager.current().manager().leaf_chain(
                        0,
                        self.fptree_manager.current().manager().mapped.len(),
                    )->0;
                    let leaves = choose|leaves: Seq<Seq<(Vec<u8>, Vec<u8>, usize)>>|
                        crate::flush_writer::flushed(
                            self.fptree_manager.current().manager(),
                            chain,
                            leaves,
                            bytes@,
                            info,
                        );
                }
                let ghost frozen = self.fptree_manager.current();
                proof {
                    frozen.lemma_tree_chain();
                    assert forall|key: Seq<u8>|
                        view.lookup(key) == Ok::<Option<Seq<u8>>, StoreError>(
                            frozen.lookup(key),
                        ) by {
                        lemma_flushed_tree(frozen, bytes@, info, key);
                    }
                }
                self.sstable_manager.register(info, bytes);
                let retired: usize = self.fptree_manager.switch_fptree();
                proof {
                    let levels = old(self).tables().levels();
                    assert(self.sstable_manager.levels() == levels_with(levels, view));
                    crate::sstable_manager::lemma_ids_after_register(
                        levels,
                        view,
                        table_id as int + 2,
                    );
                    assert forall|key: Seq<u8>| self.stored(key) == old(self).stored(key) by {
                        lemma_register_newest(levels, view, key);
                    }
                }
                Ok(FlushOutcome::Flushed { table_id, retired })
            },
        }
    }
}


/// One step of the life of a store.
pub enum Step {
    /// A key was stored with a value.
    Put(Seq<u8>, Seq<u8>),
    /// A key was deleted.
    Delete(Seq<u8>),
    /// The flush worker acted on a signal.
    Flush,
}

impl Step {
    /// The key that the step writes and what it stores for it, if it
    /// writes one: a delete stores the empty value.
    pub open spec fn written(self) -> Option<(Seq<u8>, Seq<u8>)> {
        match self {
            Step::Put(key, value) => Some((key, value)),
            Step::Delete(key) => Some((key, Seq::empty())),
            Step::Flush => None,
        }
    }
}

/// What the last step that wrote `key` stored for it.
pub open spec fn last_written(steps: Seq<Step>, key: Seq<u8>) -> Option<Seq<u8>>
    decreases steps.len(),
{
    if steps.len() == 0 {
        None
    } else {
        match steps.last().written() {
            Some((k, value)) => if k == key {
                Some(value)
            } else {
                last_written(steps.drop_last(), key)
            },
            None => last_written(steps.drop_last(), key),
        }
    }
}

impl KVS {
    /// This store is what `before` became by a step that went well: a
    /// write stores its value for its key and leaves all other keys alone,
    /// a flush leaves all keys alone.
    pub open spec fn follows(&self, before: KVS, step: Step) -> bool {
        forall|key: Seq<u8>|
            self.stored(key) == (match step.written() {
                Some((k, value)) => if k == key {
                    Ok::<Option<Seq<u8>>, StoreError>(Some(value))
                } else {
                    before.stored(key)
                },
                None => before.stored(key),
            })
    }
}

/// After any steps that went well, a reader finds for a key the value
/// that was written for it last, nothing where the key was deleted last,
/// and what was found before the steps where no step wrote the key.
pub proof fn lemma_round_trip(states: Seq<KVS>, steps: Seq<Step>, key: Seq<u8>)
    requires
        states.len() == steps.len() + 1,
        forall|i: int|
            0 <= i < steps.len() ==> (#[trigger] states[i + 1]).follows(states[i], steps[i]),
    ensures
        states.last().found(key) == (match last_written(steps, key) {
            Some(value) => if value.len() == 0 {
                Ok::<Option<Seq<u8>>, StoreError>(None)
            } else {
                Ok::<Option<Seq<u8>>, StoreError>(Some(value))
            },
            None => states[0].found(key),
        }),
    decreases steps.len(),
{
    if steps.len() > 0 {
        let n = steps.len() as int;
        let shorter = states.drop_last();
        assert forall|i: int| 0 <= i < steps.drop_last().len() implies (
        #[trigger] shorter[i + 1]).follows(shorter[i], steps.drop_last()[i]) by {
            assert(states[i + 1].follows(states[i], steps[i]));
        }
        lemma_round_trip(shorter, steps.drop_last(), key);
        assert(states[n].follows(states[n - 1], steps[n - 1]));
        assert(shorter.last() == states[n - 1]);
        assert(shorter[0] == states[0]);
    }
}

/// What the tables hold once the leaf file of a sound tree was taken over
/// as a table: what the tree stored, and for the keys that it did not
/// know what the tables held before.
pub proof fn lemma_recovered_table(
    tree: crate::fptree::FPTree,
    before: SstableManager,
    after: SstableManager,
    info: TableInfo,
    bytes: Seq<u8>,
)
    requires
        tree.wf(),
        crate::flush_writer::recovered_chain(tree.manager().data) matches Some(chain)
            && flush_result(
            crate::flush_writer::recovered_view(tree.manager().data),
            chain,
            bytes,
            info,
        ),
        forall|key: Seq<u8>|
            after.lookup(key) == (match table_view(info, bytes).lookup(key) {
                Err(e) => Err(e),
                Ok(Some(value)) => Ok(Some(value)),
                Ok(None) => before.lookup(key),
            }),
    ensures
        forall|key: Seq<u8>|
            after.lookup(key) == (match tree.lookup(key) {
                Some(value) => Ok::<Option<Seq<u8>>, StoreError>(Some(value)),
                None => before.lookup(key),
            }),
{
    assert forall|key: Seq<u8>|
        after.lookup(key) == (match tree.lookup(key) {
            Some(value) => Ok::<Option<Seq<u8>>, StoreError>(Some(value)),
            None => before.lookup(key),
        }) by {
        crate::flush_soundness::lemma_recovered_tree(tree, bytes, info, key);
    }
}

/// Persistence: a store that was opened over the tables of `closed` and
/// then took the leaf file of its tree over as a table stores what
/// `closed` stored.
pub proof fn lemma_persistence(
    closed: KVS,
    opened: KVS,
    recovered: KVS,
    info: TableInfo,
    bytes: Seq<u8>,
)
    requires
        closed.wf(),
        closed.trees().incoming() is None,
        opened.tables() == closed.tables(),
        forall|key: Seq<u8>| opened.trees().lookup(key) is None,
        recovered.trees() == opened.trees(),
        crate::flush_writer::recovered_chain(
            closed.trees().current().manager().data,
        ) matches Some(chain) && flush_result(
            crate::flush_writer::recovered_view(closed.trees().current().manager().data),
            chain,
            bytes,
            info,
        ),
        forall|key: Seq<u8>|
            recovered.tables().lookup(key) == (match table_view(info, bytes).lookup(key) {
                Err(e) => Err(e),
                Ok(Some(value)) => Ok(Some(value)),
                Ok(None) => opened.tables().lookup(key),
            }),
    ensures
        forall|key: Seq<u8>| recovered.stored(key) == closed.stored(key),
{
    lemma_recovered_table(
        closed.trees().current(),
        opened.tables(),
        recovered.tables(),
        info,
        bytes,
    );
}

/// Persistence of a store that was closed while a flush was under way: a
/// store that was opened over its tables and then took the leaf files of
/// both trees over as tables, that of the current tree first, stores what
/// `closed` stored.
pub proof fn lemma_persistence_in_flush(
    closed: KVS,
    opened: KVS,
    halfway: KVS,
    recovered: KVS,
    first: (TableInfo, Seq<u8>),
    second: (TableInfo, Seq<u8>),
)
    requires
        closed.wf(),
        closed.trees().incoming() is Some,
        opened.tables() == closed.tables(),
        forall|key: Seq<u8>| opened.trees().lookup(key) is None,
        halfway.trees() == opened.trees(),
        recovered.trees() == opened.trees(),
        crate::flush_writer::recovered_chain(
            closed.trees().current().manager().data,
        ) matches Some(chain) && flush_result(
            crate::flush_writer::recovered_view(closed.trees().current().manager().data),
            chain,
            first.1,
            first.0,
        ),
        forall|key: Seq<u8>|
            halfway.tables().lookup(key) == (match table_view(first.0, first.1).lookup(key) {
                Err(e) => Err(e),
                Ok(Some(value)) => Ok(Some(value)),
                Ok(None) => opened.tables().lookup(key),
            }),
        crate::flush_writer::recovered_chain(
            closed.trees().incoming()->0.manager().data,
        ) matches Some(chain) && flush_result(
            crate::flush_writer::recovered_view(closed.trees().incoming()->0.manager().data),
            chain,
            second.1,
            second.0,
        ),
        forall|key: Seq<u8>|
            recovered.tables().lookup(key) == (match table_view(second.0, second.1).lookup(key) {
                Err(e) => Err(e),
                Ok(Some(value)) => Ok(Some(value)),
                Ok(None) => halfway.tables().lookup(key),
            }),
    ensures
        forall|key: Seq<u8>| recovered.stored(key) == closed.stored(key),
{
    lemma_recovered_table(
        closed.trees().current(),
        opened.tables(),
        halfway.tables(),
        first.0,
        first.1,
    );
    lemma_recovered_table(
        closed.trees().incoming()->0,
        halfway.tables(),
        recovered.tables(),
        second.0,
        second.1,
    );
}

/// Flush atomicity: where the current tree was written out as a table
/// while the incoming tree took the writes, the store after the table
/// was registered and the trees were switched stores what it stored
/// before, whatever the incoming tree took meanwhile.
pub proof fn lemma_flush_switch(before: KVS, after: KVS, info: TableInfo, bytes: Seq<u8>)
    requires
        before.wf(),
        before.trees().incoming() is Some,
        before.trees().current().manager().leaf_chain(
            0,
            before.trees().current().manager().mapped.len(),
        ) matches Some(chain) && flush_result(
            before.trees().current().manager(),
            chain,
            bytes,
            info,
        ),
        forall|key: Seq<u8>|
            after.tables().lookup(key) == (match table_view(info, bytes).lookup(key) {
                Err(e) => Err(e),
                Ok(Some(value)) => Ok(Some(value)),
                Ok(None) => before.tables().lookup(key),
            }),
        forall|key: Seq<u8>|
            after.trees().lookup(key) == before.trees().incoming()->0.lookup(key),
    ensures
        forall|key: Seq<u8>| after.stored(key) == before.stored(key),
{
    let frozen = before.trees().current();
    frozen.lemma_tree_chain();
    assert forall|key: Seq<u8>| after.stored(key) == before.stored(key) by {
        lemma_flushed_tree(frozen, bytes, info, key);
    }
}

} // verus!
