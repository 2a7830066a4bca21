use crate::amphis_error::StoreError;
use crate::fptree::leaf::{header_lists, header_slot_result, read_kv_pairs};
use crate::fptree::leaf_manager::types::{LeafHeader, LEAF_SIZE};
use crate::fptree::leaf_manager::{LeafManager, LeafManagerView};
use crate::fptree::FPTree;
use crate::sparse_index::{lemma_upsert_wf, SparseIndex, SparseIndexView};
use crate::sstable_manager::{
    bloom_admitted, bloom_new, bloom_set, bloom_sound, table_image, table_offset, TableId,
    TableInfo,
};
use crate::util::data_util::{append_bytes, format_data_with_crc};
use crate::util::entry_sort::{sort_entries, sorted_entries};
use bloomfilter::Bloom;
use vstd::prelude::*;

verus! {

/// What the flush worker is told.
#[derive(Debug, Clone, Copy, PartialEq, Eq, Structural)]
pub enum FlushSignal {
    TryFlush,
    Shutdown,
}

/// Writes trees out as tables: knows the id of the next table, how large
/// the filters are made, and the seed of their hash keys.
pub struct FlushWriter {
    table_id: TableId,
    filter_items_count: usize,
    filter_bitmap_size: usize,
    filter_seed: [u8; 32],
}

/// The keys and values of entries.
pub open spec fn pair_views(sorted: Seq<(Vec<u8>, Vec<u8>, usize)>) -> Seq<(Seq<u8>, Seq<u8>)> {
    Seq::new(sorted.len(), |i: int| (sorted[i].0@, sorted[i].1@))
}

/// `sorted` are the pairs of the taken slots of the committed header of
/// page `id`, sorted.
pub open spec fn leaf_sorted(
    m: LeafManagerView,
    id: int,
    sorted: Seq<(Vec<u8>, Vec<u8>, usize)>,
) -> bool {
    exists|h: LeafHeader, pairs: Seq<(Vec<u8>, Vec<u8>, usize)>|
        {
            &&& m.is_mapped(id)
            &&& #[trigger] m.holds_header(id, h)
            &&& #[trigger] header_lists(h, m, pairs, 32)
            &&& sorted.to_multiset() == pairs.to_multiset()
            &&& sorted_entries(sorted)
        }
}

/// Reading a pair of a taken slot of the committed header of page `id`
/// fails with `e`.
pub open spec fn leaf_read_fails(m: LeafManagerView, id: int, e: StoreError) -> bool {
    exists|h: LeafHeader, s: int|
        {
            &&& #[trigger] m.holds_header(id, h)
            &&& 0 <= s < 32
            &&& h.occupied(s)
            &&& #[trigger] header_slot_result(h, m, s) == Err::<(Seq<u8>, Seq<u8>), StoreError>(e)
        }
}

/// The pairs of leaves, one leaf after the other.
pub open spec fn flattened(leaves: Seq<Seq<(Vec<u8>, Vec<u8>, usize)>>) -> Seq<
    (Seq<u8>, Seq<u8>),
>
    decreases leaves.len(),
{
    if leaves.len() == 0 {
        Seq::empty()
    } else {
        flattened(leaves.drop_last()) + pair_views(leaves.last())
    }
}

/// The index of a table of these pairs: every key was offered with the
/// offset of its pair, in order.
pub open spec fn index_of(entries: Seq<(Seq<u8>, Seq<u8>)>) -> SparseIndexView
    decreases entries.len(),
{
    if entries.len() == 0 {
        SparseIndexView { prev_offset: usize::MAX, entries: Seq::empty() }
    } else {
        index_of(entries.drop_last()).inserted(
            entries.last().0,
            table_offset(entries, entries.len() - 1) as usize,
        )
    }
}

/// What a flush of the leaves `ids` yields: a table of the sorted pairs of
/// each leaf, leaf after leaf, with the index of its offsets and a filter
/// that lets every key of the table pass.
pub open spec fn flushed(
    m: LeafManagerView,
    ids: Seq<usize>,
    leaves: Seq<Seq<(Vec<u8>, Vec<u8>, usize)>>,
    bytes: Seq<u8>,
    info: TableInfo,
) -> bool {
    &&& leaves.len() == ids.len()
    &&& forall|i: int| 0 <= i < ids.len() ==> leaf_sorted(m, ids[i] as int, #[trigger] leaves[i])
    &&& bytes == table_image(flattened(leaves))
    &&& info.index@ == index_of(flattened(leaves))
    &&& info.index@.wf()
    &&& bloom_sound(info.filter)
    &&& forall|j: int|
        0 <= j < flattened(leaves).len() ==> bloom_admitted(info.filter).contains(
            (#[trigger] flattened(leaves)[j]).0,
        )
    &&& info.size == bytes.len()
    &&& info.level == 0
}

/// There are sorted leaves of which `bytes` and `info` are the flush.
pub open spec fn flush_result(
    m: LeafManagerView,
    ids: Seq<usize>,
    bytes: Seq<u8>,
    info: TableInfo,
) -> bool {
    exists|leaves: Seq<Seq<(Vec<u8>, Vec<u8>, usize)>>| flushed(m, ids, leaves, bytes, info)
}

/// Why a flush fails: no id is left for the table, a leaf has no header in
/// use, or a pair of a leaf cannot be read.
pub open spec fn flush_failure(
    m: LeafManagerView,
    ids: Seq<usize>,
    e: StoreError,
    next_id: int,
) -> bool {
    ||| e == StoreError::NoSpace && next_id + 2 > usize::MAX
    ||| e == StoreError::BrokenChain && exists|i: int|
        0 <= i < ids.len() && !m.is_mapped(#[trigger] ids[i] as int)
    ||| exists|i: int| 0 <= i < ids.len() && #[trigger] leaf_read_fails(m, ids[i] as int, e)
}

/// The pairs of a leaf read back with the sizes that the header names.
proof fn lemma_listed_sizes(
    h: LeafHeader,
    m: LeafManagerView,
    pairs: Seq<(Vec<u8>, Vec<u8>, usize)>,
    sorted: Seq<(Vec<u8>, Vec<u8>, usize)>,
    j: int,
)
    requires
        header_lists(h, m, pairs, 32),
        sorted.to_multiset() == pairs.to_multiset(),
        0 <= j < sorted.len(),
    ensures
        sorted[j].0@.len() <= u32::MAX,
        sorted[j].1@.len() <= u32::MAX,
{
    broadcast use vstd::seq_lib::group_to_multiset_ensures;

    assert(sorted.contains(sorted[j]));
    assert(sorted.to_multiset().count(sorted[j]) > 0);
    assert(pairs.contains(sorted[j]));
    let i = choose|i: int| 0 <= i < pairs.len() && pairs[i] == sorted[j];
    let entry = pairs[i];
    assert(header_slot_result(h, m, entry.2 as int) == Ok::<(Seq<u8>, Seq<u8>), StoreError>(
        (entry.0@, entry.1@),
    ));
}

/// A leaf file as it is taken over when it was left behind: the pages
/// with a sound header are in use, the others wait.
pub open spec fn recovered_view(image: Seq<u8>) -> LeafManagerView {
    let pages = (image.len() / 1048576) as nat;
    LeafManagerView {
        data: image,
        free: crate::fptree::leaf_manager::unrecovered_pages(image, pages),
        mapped: Seq::new(pages, |id: int| crate::fptree::leaf_manager::page_recoverable(image, id)),
    }
}

/// The leaves of a leaf file that was left behind, in the order of the
/// sibling chain.
pub open spec fn recovered_chain(image: Seq<u8>) -> Option<Seq<usize>> {
    recovered_view(image).leaf_chain(0, recovered_view(image).mapped.len())
}

impl FlushWriter {
    /// The id that the next table gets.
    pub closed spec fn next_id(&self) -> TableId {
        self.table_id
    }

    /// The number of keys that the filters are made for.
    pub closed spec fn items_count(&self) -> usize {
        self.filter_items_count
    }

    /// The number of bytes that the bitmap of a filter takes.
    pub closed spec fn bitmap_size(&self) -> usize {
        self.filter_bitmap_size
    }

    /// The seed that the hash keys of the filters are made from.
    pub closed spec fn seed(&self) -> Seq<u8> {
        self.filter_seed@
    }

    /// The filters can be made: their size and the expected number of
    /// keys are not zero, and the bits of the size can be counted.
    pub open spec fn wf(&self) -> bool {
        &&& self.items_count() > 0
        &&& self.bitmap_size() > 0
        &&& self.bitmap_size() * 8 <= usize::MAX
    }

    /// The writer makes its filters as `other` does.
    pub open spec fn same_settings(&self, other: FlushWriter) -> bool {
        &&& self.items_count() == other.items_count()
        &&& self.bitmap_size() == other.bitmap_size()
        &&& self.seed() == other.seed()
    }

    /// A writer whose next table gets `table_id` and whose filters take
    /// `filter_bitmap_size` bytes for `filter_items_count` expected keys,
    /// with hash keys made from `filter_seed`; `None` where such filters
    /// cannot be made.
    pub fn new(
        table_id: TableId,
        filter_items_count: usize,
        filter_bitmap_size: usize,
        filter_seed: [u8; 32],
    ) -> (writer: Option<FlushWriter>)
        ensures
            match writer {
                Some(writer) => {
                    &&& writer.wf()
                    &&& writer.next_id() == table_id
                    &&& writer.items_count() == filter_items_count
                    &&& writer.bitmap_size() == filter_bitmap_size
                    &&& writer.seed() == filter_seed@
                },
                None => filter_items_count == 0 || filter_bitmap_size == 0 || filter_bitmap_size
                    * 8 > usize::MAX,
            },
    {
        if filter_items_count == 0 || filter_bitmap_size == 0 || filter_bitmap_size > usize::MAX
            / 8 {
            return None;
        }
        Some(FlushWriter { table_id, filter_items_count, filter_bitmap_size, filter_seed })
    }

    /// The id that the next table gets.
    pub fn get_table_id(&self) -> (id: TableId)
        ensures
            id == self.next_id(),
    {
        self.table_id
    }

    /// Takes the id for a new table. Flushes take every other id; those
    /// between are left to compactions.
    pub fn create_new_table(&mut self) -> (id: Option<TableId>)
        requires
            old(self).wf(),
        ensures
            final(self).wf(),
            final(self).next_id() >= old(self).next_id(),
            final(self).same_settings(*old(self)),
            match id {
                Some(id) => id == old(self).next_id() && final(self).next_id() == id + 2,
                None => old(self).next_id() + 2 > usize::MAX && final(self).next_id() == old(
                    self,
                ).next_id(),
            },
    {
        let id: TableId = self.table_id;
        match id.checked_add(2) {
            Some(next) => {
                self.table_id = next;
                Some(id)
            },
            None => None,
        }
    }

    /// Writes the leaves `id_list` of a leaf file out as a table: returns
    /// what is known of the table and the bytes of its file.
    #[verifier::rlimit(50)]
    pub fn flush_kv(&mut self, leaf_manager: &LeafManager, id_list: &Vec<usize>) -> (res: Result<
        (TableInfo, Vec<u8>),
        StoreError,
    >)
        requires
            old(self).wf(),
            leaf_manager@.wf(),
        ensures
            final(self).wf(),
            final(self).next_id() >= old(self).next_id(),
            final(self).same_settings(*old(self)),
            res matches Ok((info, bytes)) ==> {
                &&& info.id == old(self).next_id()
                &&& final(self).next_id() == old(self).next_id() + 2
                &&& flush_result(leaf_manager@, id_list@, bytes@, info)
            },
            res matches Err(e) ==> flush_failure(
                leaf_manager@,
                id_list@,
                e,
                old(self).next_id() as int,
            ),
    {
        let table_id: TableId = match self.create_new_table() {
            Some(id) => id,
            None => {
                return Err(StoreError::NoSpace);
            },
        };
        let mut index: SparseIndex = SparseIndex::new();
        let mut filter: Bloom<Vec<u8>> = bloom_new(
            self.filter_bitmap_size,
            self.filter_items_count,
            &self.filter_seed,
        );
        let mut out: Vec<u8> = Vec::new();
        let ghost mut leaves: Seq<Seq<(Vec<u8>, Vec<u8>, usize)>> = Seq::empty();
        proof {
            assert(index@.entries =~= Seq::<(Seq<u8>, usize)>::empty());
            assert(index@ == index_of(flattened(leaves)));
        }
        let mut n: usize = 0;
        while n < id_list.len()
            invariant
                n <= id_list@.len(),
                self.wf(),
                self.next_id() == old(self).next_id() + 2,
                self.same_settings(*old(self)),
                leaf_manager@.wf(),
                leaves.len() == n,
                forall|i: int|
                    0 <= i < n ==> leaf_sorted(leaf_manager@, id_list@[i] as int, #[trigger] leaves[i]),
                out@ == table_image(flattened(leaves)),
                index@ == index_of(flattened(leaves)),
                index@.wf(),
                index@.prev_offset == usize::MAX || index@.prev_offset <= out@.len(),
                bloom_sound(filter),
                forall|j: int|
                    0 <= j < flattened(leaves).len() ==> bloom_admitted(filter).contains(
                        (#[trigger] flattened(leaves)[j]).0,
                    ),
            decreases id_list@.len() - n,
        {
            let id: usize = id_list[n];
            let header: LeafHeader = match leaf_manager.get_header(id) {
                Some(h) => h,
                None => {
                    return Err(StoreError::BrokenChain);
                },
            };
            let kv_pairs: Vec<(Vec<u8>, Vec<u8>, usize)> = match read_kv_pairs(
                leaf_manager,
                &header,
            ) {
                Ok(pairs) => pairs,
                Err(e) => {
                    proof {
                        let s = choose|s: int|
                            0 <= s < 32 && header.occupied(s) && header_slot_result(
                                header,
                                leaf_manager@,
                                s,
                            ) == Err::<(Seq<u8>, Seq<u8>), StoreError>(e);
                        assert(leaf_manager@.holds_header(id as int, header));
                        assert(header_slot_result(header, leaf_manager@, s) == Err::<
                            (Seq<u8>, Seq<u8>),
                            StoreError,
                        >(e));
                        assert(leaf_read_fails(leaf_manager@, id_list@[n as int] as int, e));
                    }
                    return Err(e);
                },
            };
            let ghost listed = kv_pairs@;
            // it is enough to sort the pairs of a leaf: the leaves are in order
            let sorted: Vec<(Vec<u8>, Vec<u8>, usize)> = sort_entries(kv_pairs);
            assert(leaf_sorted(leaf_manager@, id as int, sorted@)) by {
                assert(leaf_manager@.holds_header(id as int, header));
                assert(header_lists(header, leaf_manager@, listed, 32));
            }
            let ghost done = flattened(leaves);
            let mut j: usize = 0;
            while j < sorted.len()
                invariant
                    j <= sorted@.len(),
                    self.wf(),
                    header_lists(header, leaf_manager@, listed, 32),
                    sorted@.to_multiset() == listed.to_multiset(),
                    out@ == table_image(done + pair_views(sorted@.subrange(0, j as int))),
                    index@ == index_of(done + pair_views(sorted@.subrange(0, j as int))),
                    index@.wf(),
                    index@.prev_offset == usize::MAX || index@.prev_offset <= out@.len(),
                    bloom_sound(filter),
                    forall|k: int|
                        0 <= k < (done + pair_views(sorted@.subrange(0, j as int))).len()
                            ==> bloom_admitted(filter).contains(
                            (#[trigger] (done + pair_views(sorted@.subrange(0, j as int)))[k]).0,
                        ),
                decreases sorted@.len() - j,
            {
                let entry: &(Vec<u8>, Vec<u8>, usize) = &sorted[j];
                let ghost before = done + pair_views(sorted@.subrange(0, j as int));
                let ghost after = done + pair_views(sorted@.subrange(0, j + 1));
                let ghost old_filter = filter;
                proof {
                    lemma_listed_sizes(header, leaf_manager@, listed, sorted@, j as int);
                    assert(after =~= before.push((entry.0@, entry.1@)));
                    assert(after.drop_last() =~= before);
                    assert(after.subrange(0, after.len() - 1) =~= before);
                    let total: usize = out.len();
                    lemma_upsert_wf(index@, entry.0@, total);
                }
                bloom_set(&mut filter, &entry.0);
                let offset: usize = out.len();
                index.insert(entry.0.as_slice(), offset);
                let data: Vec<u8> = format_data_with_crc(&entry.0, &entry.1);
                append_bytes(&mut out, data.as_slice());
                proof {
                    assert forall|k: int| 0 <= k < after.len() implies bloom_admitted(
                        filter,
                    ).contains((#[trigger] after[k]).0) by {
                        if k < before.len() {
                            assert(after[k] == before[k]);
                            assert(bloom_admitted(old_filter).contains(before[k].0));
                        }
                    }
                }
                j = j + 1;
            }
            proof {
                assert(sorted@.subrange(0, sorted@.len() as int) =~= sorted@);
                let grown = leaves.push(sorted@);
                assert(grown.drop_last() =~= leaves);
                assert(flattened(grown) == done + pair_views(sorted@));
                assert forall|i: int| 0 <= i < n + 1 implies leaf_sorted(
                    leaf_manager@,
                    id_list@[i] as int,
                    #[trigger] grown[i],
                ) by {
                    if i < n {
                        assert(grown[i] == leaves[i]);
                    }
                }
                leaves = grown;
            }
            n = n + 1;
        }
        let size: usize = out.len();
        let info = TableInfo { id: table_id, size, level: 0, filter, index };
        assert(flushed(leaf_manager@, id_list@, leaves, out@, info));
        assert(flush_result(leaf_manager@, id_list@, out@, info));
        Ok((info, out))
    }

    /// Writes a tree out as a table: its leaves in the order of the
    /// sibling chain. This fails only where no id is left for the table.
    pub fn flush(&mut self, tree: &FPTree) -> (res: Result<(TableInfo, Vec<u8>), StoreError>)
        requires
            old(self).wf(),
            tree.wf(),
        ensures
            final(self).wf(),
            final(self).next_id() >= old(self).next_id(),
            final(self).same_settings(*old(self)),
            match res {
                Ok((info, bytes)) => {
                    &&& info.id == old(self).next_id()
                    &&& final(self).next_id() == old(self).next_id() + 2
                    &&& tree.manager().leaf_chain(0, tree.manager().mapped.len()) matches Some(
                        chain,
                    )
                    &&& flush_result(tree.manager(), chain, bytes@, info)
                },
                Err(e) => e == StoreError::NoSpace && old(self).next_id() + 2 > usize::MAX,
            },
    {
        let leaf_manager: &LeafManager = tree.get_leaf_manager();
        proof {
            tree.lemma_manager_wf();
            tree.lemma_tree_chain();
        }
        let id_list: Vec<usize> = match leaf_manager.get_leaf_id_chain() {
            Ok(ids) => ids,
            Err(e) => {
                proof {
                    assert(false);
                }
                return Err(e);
            },
        };
        let res = self.flush_kv(leaf_manager, &id_list);
        proof {
            if let Err(e) = res {
                crate::flush_soundness::lemma_flush_failure(
                    *tree,
                    e,
                    old(self).next_id() as int,
                );
            }
        }
        res
    }

    /// Writes the leaves of a leaf file that was left behind out as a
    /// table: the pages with a sound header are taken for leaves, and the
    /// leaves are taken in the order of the sibling chain from the first
    /// page on.
    pub fn flush_with_file(&mut self, image: Vec<u8>) -> (res: Result<
        (TableInfo, Vec<u8>),
        StoreError,
    >)
        requires
            old(self).wf(),
        ensures
            final(self).wf(),
            final(self).next_id() >= old(self).next_id(),
            final(self).same_settings(*old(self)),
            match res {
                Ok((info, bytes)) => {
                    &&& info.id == old(self).next_id()
                    &&& final(self).next_id() == old(self).next_id() + 2
                    &&& image@.len() / 1048576 < 0xFFFF_FFFF
                    &&& recovered_chain(image@) matches Some(chain)
                    &&& flush_result(recovered_view(image@), chain, bytes@, info)
                },
                Err(e) => {
                    ||| e == StoreError::OutOfRange && image@.len() / 1048576 >= 0xFFFF_FFFF
                    ||| e == StoreError::BrokenChain && recovered_chain(image@) is None
                    ||| recovered_chain(image@) matches Some(chain) && flush_failure(
                        recovered_view(image@),
                        chain,
                        e,
                        old(self).next_id() as int,
                    )
                },
            },
    {
        if image.len() / LEAF_SIZE >= 0xFFFF_FFFF {
            return Err(StoreError::OutOfRange);
        }
        let leaf_manager: LeafManager = LeafManager::new(image, false);
        proof {
            assert(leaf_manager@.mapped =~= recovered_view(image@).mapped);
            assert(leaf_manager@ == recovered_view(image@));
        }
        let id_list: Vec<usize> = match leaf_manager.get_leaf_id_chain() {
            Ok(ids) => ids,
            Err(e) => {
                return Err(e);
            },
        };
        self.flush_kv(&leaf_manager, &id_list)
    }
}

} // verus!
