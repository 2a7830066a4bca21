use crate::amphis_error::StoreError;
use crate::flush_writer::{flattened, index_of, leaf_sorted, pair_views};
use crate::fptree::leaf::{
    header_lists, header_slot_result, lemma_lookup_unique, lemma_sorted_listing, sorted_listing,
    Leaf,
};
use crate::fptree::leaf_manager::types::{lemma_header_bytes_injective, LeafHeader};
use crate::fptree::leaf_manager::LeafManagerView;
use crate::sparse_index::{lemma_insert_striding, lemma_reached, SparseIndexView};
use crate::flush_writer::{
    flush_failure, flush_result, flushed, leaf_read_fails, recovered_chain, recovered_view,
};
use crate::fptree::inner::lemma_leaf_count;
use crate::fptree::inner::{leaf_ids, lemma_leaves_ordered, lemma_leaves_sound, lemma_lookup_leaf};
use crate::fptree::FPTree;
use crate::sstable_manager::{
    bloom_admitted, first_from, lemma_scan_table, lemma_table_prefix, scan_from, table_image,
    table_offset, TableInfo, TableView,
};
use vstd::bytes::lemma_auto_spec_u32_to_from_le_bytes;
use crate::util::key_order::{key_lt, lemma_key_lt_total, lemma_key_lt_transitive};
use vstd::prelude::*;

verus! {

/// The keys of pairs ascend strictly.
pub open spec fn ascending(entries: Seq<(Seq<u8>, Seq<u8>)>) -> bool {
    forall|i: int, j: int| 0 <= i < j < entries.len() ==> key_lt(entries[i].0, entries[j].0)
}

/// The sorted pairs of the committed header of a sound leaf are the
/// sorted listing of the leaf.
pub proof fn lemma_leaf_sorted_listing(
    leaf: Leaf,
    m: LeafManagerView,
    sorted: Seq<(Vec<u8>, Vec<u8>, usize)>,
)
    requires
        leaf.wf(m),
        leaf_sorted(m, leaf.id() as int, sorted),
    ensures
        sorted_listing(leaf, m, sorted),
{
    let (h, pairs) = choose|h: LeafHeader, pairs: Seq<(Vec<u8>, Vec<u8>, usize)>|
        {
            &&& m.is_mapped(leaf.id() as int)
            &&& #[trigger] m.holds_header(leaf.id() as int, h)
            &&& #[trigger] header_lists(h, m, pairs, 32)
            &&& sorted.to_multiset() == pairs.to_multiset()
            &&& crate::util::entry_sort::sorted_entries(sorted)
        };
    lemma_header_bytes_injective(h, leaf.header());
    assert(leaf.lists(m, pairs, 32));
    lemma_sorted_listing(leaf, m, pairs, sorted);
}

/// What the sorted listing of a sound leaf says of what the leaf stores:
/// every entry is stored, everything stored has its entry, the keys
/// ascend, and keys and values are no longer than a slot can say.
#[verifier::rlimit(50)]
pub proof fn lemma_listing_lookup(
    leaf: Leaf,
    m: LeafManagerView,
    sorted: Seq<(Vec<u8>, Vec<u8>, usize)>,
)
    requires
        leaf.wf(m),
        sorted_listing(leaf, m, sorted),
    ensures
        ascending(pair_views(sorted)),
        forall|t: int|
            0 <= t < sorted.len() ==> leaf.lookup(m, (#[trigger] pair_views(sorted)[t]).0) == Some(
                pair_views(sorted)[t].1,
            ),
        forall|key: Seq<u8>|
            leaf.lookup(m, key) is Some ==> exists|t: int|
                0 <= t < sorted.len() && #[trigger] pair_views(sorted)[t] == (
                    key,
                    leaf.lookup(m, key)->0,
                ),
        forall|t: int|
            0 <= t < sorted.len() ==> (#[trigger] pair_views(sorted)[t]).0.len() <= u32::MAX
                && pair_views(sorted)[t].1.len() <= u32::MAX,
{
    let views = pair_views(sorted);
    assert forall|i: int, j: int| 0 <= i < j < views.len() implies key_lt(
        views[i].0,
        views[j].0,
    ) by {
        assert(key_lt(sorted[i].0@, sorted[j].0@));
    }
    assert forall|t: int| 0 <= t < sorted.len() implies leaf.lookup(m, (#[trigger] views[t]).0)
        == Some(views[t].1) && views[t].0.len() <= u32::MAX && views[t].1.len() <= u32::MAX by {
        let entry = sorted[t];
        assert(leaf.slot_result(m, entry.2 as int) == Ok::<(Seq<u8>, Seq<u8>), StoreError>(
            (entry.0@, entry.1@),
        ));
        assert(leaf.holds(m, entry.2 as int, entry.0@));
        lemma_lookup_unique(leaf, m, entry.2 as int, entry.0@);
    }
    assert forall|key: Seq<u8>| leaf.lookup(m, key) is Some implies exists|t: int|
        0 <= t < sorted.len() && #[trigger] views[t] == (key, leaf.lookup(m, key)->0) by {
        let s = choose|s: int| leaf.holds(m, s, key);
        lemma_lookup_unique(leaf, m, s, key);
        let t = choose|t: int| 0 <= t < sorted.len() && (#[trigger] sorted[t]).2 == s;
        assert(leaf.slot_result(m, s) == Ok::<(Seq<u8>, Seq<u8>), StoreError>(
            (sorted[t].0@, sorted[t].1@),
        ));
        assert(views[t] == (key, leaf.lookup(m, key)->0));
    }
}

/// What is known of leaves and their sorted listings when a tree is
/// written out: the leaves are sound, each has its listing, and the keys of
/// a leaf come before those of the leaves behind it.
pub open spec fn listed(
    leaves: Seq<Leaf>,
    m: LeafManagerView,
    dump: Seq<Seq<(Vec<u8>, Vec<u8>, usize)>>,
) -> bool {
    &&& dump.len() == leaves.len()
    &&& forall|i: int| 0 <= i < leaves.len() ==> (#[trigger] leaves[i]).wf(m)
    &&& forall|i: int| 0 <= i < leaves.len() ==> sorted_listing(leaves[i], m, #[trigger] dump[i])
    &&& forall|i: int, j: int, k1: Seq<u8>, k2: Seq<u8>|
        0 <= i < j < leaves.len() && (#[trigger] leaves[i].lookup(m, k1)) is Some && (
        #[trigger] leaves[j].lookup(m, k2)) is Some ==> key_lt(k1, k2)
}

/// One of the leaves from `from` up to `to` stores the pair.
pub open spec fn stored_in(
    leaves: Seq<Leaf>,
    m: LeafManagerView,
    pair: (Seq<u8>, Seq<u8>),
    from: int,
    to: int,
) -> bool {
    exists|i: int|
        from <= i < to && 0 <= i < leaves.len() && (#[trigger] leaves[i]).lookup(m, pair.0) == Some(
            pair.1,
        )
}

/// The pairs of listed leaves, one leaf after the other, ascend; each is
/// stored by a leaf, and everything that a leaf stores is among them.
#[verifier::rlimit(50)]
pub proof fn lemma_flattened(
    leaves: Seq<Leaf>,
    m: LeafManagerView,
    dump: Seq<Seq<(Vec<u8>, Vec<u8>, usize)>>,
)
    requires
        listed(leaves, m, dump),
    ensures
        ascending(flattened(dump)),
        forall|t: int|
            0 <= t < flattened(dump).len() ==> stored_in(
                leaves,
                m,
                #[trigger] flattened(dump)[t],
                0,
                leaves.len() as int,
            ),
        forall|i: int, key: Seq<u8>|
            0 <= i < leaves.len() && (#[trigger] leaves[i].lookup(m, key)) is Some ==> exists|
                t: int,
            |
                0 <= t < flattened(dump).len() && #[trigger] flattened(dump)[t] == (
                    key,
                    leaves[i].lookup(m, key)->0,
                ),
        forall|t: int|
            0 <= t < flattened(dump).len() ==> (#[trigger] flattened(dump)[t]).0.len() <= u32::MAX
                && flattened(dump)[t].1.len() <= u32::MAX,
    decreases leaves.len(),
{
    let all = flattened(dump);
    if leaves.len() == 0 {
    } else {
        let n = leaves.len() - 1;
        let head_leaves = leaves.drop_last();
        let head_dump = dump.drop_last();
        let last = leaves[n];
        let tail = pair_views(dump[n]);
        let head = flattened(head_dump);
        assert(all == head + tail);
        assert(listed(head_leaves, m, head_dump)) by {
            assert forall|i: int| 0 <= i < head_leaves.len() implies (
            #[trigger] head_leaves[i]).wf(m) by {
                assert(leaves[i].wf(m));
            }
            assert forall|i: int| 0 <= i < head_leaves.len() implies sorted_listing(
                head_leaves[i],
                m,
                #[trigger] head_dump[i],
            ) by {
                assert(sorted_listing(leaves[i], m, dump[i]));
            }
            assert forall|i: int, j: int, k1: Seq<u8>, k2: Seq<u8>|
                0 <= i < j < head_leaves.len() && (#[trigger] head_leaves[i].lookup(m, k1))
                    is Some && (#[trigger] head_leaves[j].lookup(m, k2)) is Some implies key_lt(
                k1,
                k2,
            ) by {
                assert(leaves[i].lookup(m, k1) is Some);
                assert(leaves[j].lookup(m, k2) is Some);
            }
        }
        lemma_flattened(head_leaves, m, head_dump);
        assert(sorted_listing(leaves[n], m, dump[n]));
        lemma_listing_lookup(last, m, dump[n]);
        // every pair is stored by a leaf
        assert forall|t: int| 0 <= t < all.len() implies stored_in(
            leaves,
            m,
            #[trigger] all[t],
            0,
            leaves.len() as int,
        ) && (t < head.len() ==> stored_in(leaves, m, all[t], 0, n)) by {
            if t < head.len() {
                assert(all[t] == head[t]);
                assert(stored_in(head_leaves, m, head[t], 0, head_leaves.len() as int));
                let i = choose|i: int|
                    0 <= i < head_leaves.len() && 0 <= i < head_leaves.len() && (
                    #[trigger] head_leaves[i]).lookup(m, head[t].0) == Some(head[t].1);
                assert(leaves[i].lookup(m, all[t].0) == Some(all[t].1));
            } else {
                assert(all[t] == tail[t - head.len()]);
                assert(leaves[n].lookup(m, all[t].0) == Some(all[t].1));
            }
        }
        assert forall|i: int, j: int| 0 <= i < j < all.len() implies key_lt(all[i].0, all[j].0) by {
            if j < head.len() {
                assert(all[i] == head[i] && all[j] == head[j]);
            } else if i >= head.len() {
                assert(all[i] == tail[i - head.len()] && all[j] == tail[j - head.len()]);
            } else {
                assert(stored_in(leaves, m, all[i], 0, n));
                let a = choose|a: int|
                    0 <= a < n && 0 <= a < leaves.len() && (#[trigger] leaves[a]).lookup(
                        m,
                        all[i].0,
                    ) == Some(all[i].1);
                assert(all[j] == tail[j - head.len()]);
                assert(leaves[n].lookup(m, all[j].0) == Some(all[j].1));
                assert(leaves[a].lookup(m, all[i].0) is Some);
                assert(leaves[n].lookup(m, all[j].0) is Some);
            }
        }
        assert forall|i: int, key: Seq<u8>|
            0 <= i < leaves.len() && (#[trigger] leaves[i].lookup(m, key)) is Some implies exists|
            t: int,
        |
            0 <= t < all.len() && #[trigger] all[t] == (key, leaves[i].lookup(m, key)->0) by {
            if i < n {
                assert(head_leaves[i].lookup(m, key) is Some);
                let t = choose|t: int|
                    0 <= t < head.len() && #[trigger] head[t] == (
                        key,
                        head_leaves[i].lookup(m, key)->0,
                    );
                assert(all[t] == head[t]);
            } else {
                let t = choose|t: int|
                    0 <= t < dump[n].len() && #[trigger] tail[t] == (key, last.lookup(m, key)->0);
                assert(all[head.len() + t] == tail[t]);
            }
        }
        assert forall|t: int| 0 <= t < all.len() implies (#[trigger] all[t]).0.len() <= u32::MAX
            && all[t].1.len() <= u32::MAX by {
            if t < head.len() {
                assert(all[t] == head[t]);
            } else {
                assert(all[t] == tail[t - head.len()]);
            }
        }
    }
}


/// The offsets of the pairs of a table ascend from 0 to the length of the
/// table.
pub proof fn lemma_offsets(entries: Seq<(Seq<u8>, Seq<u8>)>, i: int, j: int)
    requires
        0 <= i <= j <= entries.len(),
    ensures
        table_offset(entries, 0) == 0,
        table_offset(entries, entries.len() as int) == table_image(entries).len(),
        table_offset(entries, i) <= table_offset(entries, j),
        i < j ==> table_offset(entries, i) + 16 <= table_offset(entries, j),
    decreases j - i,
{
    lemma_auto_spec_u32_to_from_le_bytes();
    assert(entries.subrange(0, 0) =~= Seq::<(Seq<u8>, Seq<u8>)>::empty());
    assert(entries.subrange(0, entries.len() as int) =~= entries);
    if i < j {
        lemma_offsets(entries, i, j - 1);
        lemma_table_prefix(entries, j - 1);
    }
}

/// The offsets of the pairs of a table are those of the table without its
/// last pair.
pub proof fn lemma_offset_drop_last(entries: Seq<(Seq<u8>, Seq<u8>)>, t: int)
    requires
        0 <= t < entries.len(),
    ensures
        table_offset(entries.drop_last(), t) == table_offset(entries, t),
{
    assert(entries.drop_last().subrange(0, t) =~= entries.subrange(0, t));
}

/// An entry of the index is the key of a pair with the offset of the
/// pair.
pub open spec fn indexed(entries: Seq<(Seq<u8>, Seq<u8>)>, entry: (Seq<u8>, usize)) -> bool {
    exists|t: int|
        0 <= t < entries.len() && entry == ((#[trigger] entries[t]).0, table_offset(entries, t) as usize)
}

/// The index holds keys of the table with their offsets, the first key
/// among them, and its offsets ascend with the keys, each at least a
/// stride behind the one before.
pub open spec fn index_ok(entries: Seq<(Seq<u8>, Seq<u8>)>, ix: SparseIndexView) -> bool {
    &&& ix.striding()
    &&& entries.len() == 0 ==> ix.entries.len() == 0 && ix.prev_offset == usize::MAX
    &&& entries.len() > 0 ==> ix.entries.len() > 0 && ix.entries[0] == (entries[0].0, 0usize)
    &&& forall|q: int| 0 <= q < ix.entries.len() ==> indexed(entries, #[trigger] ix.entries[q])
}

/// The entry that was kept last lies before the last pair of the table.
#[verifier::rlimit(50)]
proof fn lemma_last_indexed(
    entries: Seq<(Seq<u8>, Seq<u8>)>,
    before: SparseIndexView,
    offset: usize,
)
    requires
        entries.len() > 0,
        ascending(entries),
        index_ok(entries.drop_last(), before),
        offset == table_offset(entries, entries.len() - 1),
        before.entries.len() > 0,
    ensures
        key_lt(before.entries.last().0, entries.last().0),
        before.prev_offset <= offset,
{
    let n = entries.len() as int;
    let shorter = entries.drop_last();
    let last = before.entries.last();
    assert(indexed(shorter, before.entries[before.entries.len() - 1]));
    let t = choose|t: int|
        0 <= t < shorter.len() && last == (
            (#[trigger] shorter[t]).0,
            table_offset(shorter, t) as usize,
        );
    lemma_offset_drop_last(entries, t);
    lemma_offsets(entries, t, n - 1);
    assert(shorter[t] == entries[t]);
    assert(key_lt(entries[t].0, entries[n - 1].0));
    assert(last.1 == table_offset(entries, t));
}

/// An entry of the index of a table without its last pair is one of the
/// table.
proof fn lemma_indexed_longer(entries: Seq<(Seq<u8>, Seq<u8>)>, entry: (Seq<u8>, usize))
    requires
        entries.len() > 0,
        indexed(entries.drop_last(), entry),
    ensures
        indexed(entries, entry),
{
    let shorter = entries.drop_last();
    let t = choose|t: int|
        0 <= t < shorter.len() && entry == (
            (#[trigger] shorter[t]).0,
            table_offset(shorter, t) as usize,
        );
    lemma_offset_drop_last(entries, t);
    assert(entries[t] == shorter[t]);
}

/// Offering the key of one more pair keeps the index right.
#[verifier::rlimit(50)]
proof fn lemma_index_step(
    entries: Seq<(Seq<u8>, Seq<u8>)>,
    before: SparseIndexView,
    offset: usize,
)
    requires
        entries.len() > 0,
        ascending(entries),
        index_ok(entries.drop_last(), before),
        offset == table_offset(entries, entries.len() - 1),
        offset < usize::MAX,
    ensures
        index_ok(entries, before.inserted(entries.last().0, offset)),
{
    let n = entries.len() as int;
    let shorter = entries.drop_last();
    let key = entries[n - 1].0;
    if before.entries.len() > 0 {
        lemma_last_indexed(entries, before, offset);
    }
    lemma_insert_striding(before, key, offset);
    let after = before.inserted(key, offset);
    assert forall|q: int| 0 <= q < after.entries.len() implies indexed(
        entries,
        #[trigger] after.entries[q],
    ) by {
        if q < before.entries.len() {
            assert(after.entries[q] == before.entries[q]);
            lemma_indexed_longer(entries, before.entries[q]);
        } else {
            assert(after.entries[q] == (entries[n - 1].0, offset));
        }
    }
    if shorter.len() > 0 {
        assert(after.entries[0] == before.entries[0]);
        assert(shorter[0] == entries[0]);
    } else {
        lemma_offsets(entries, 0, 0);
    }
}

/// The index of a table with ascending keys is right.
pub proof fn lemma_index_of(entries: Seq<(Seq<u8>, Seq<u8>)>)
    requires
        ascending(entries),
        table_image(entries).len() <= usize::MAX,
    ensures
        index_ok(entries, index_of(entries)),
    decreases entries.len(),
{
    if entries.len() == 0 {
    } else {
        let n = entries.len() as int;
        let shorter = entries.drop_last();
        lemma_offsets(entries, n - 1, n);
        assert(shorter =~= entries.subrange(0, n - 1));
        assert forall|i: int, j: int| 0 <= i < j < shorter.len() implies key_lt(
            shorter[i].0,
            shorter[j].0,
        ) by {
            assert(key_lt(entries[i].0, entries[j].0));
        }
        lemma_index_of(shorter);
        lemma_index_step(entries, index_of(shorter), table_offset(entries, n - 1) as usize);
    }
}

/// The value of `key` among ascending pairs is found from any pair on
/// that does not come after `key`.
pub proof fn lemma_first_from(
    entries: Seq<(Seq<u8>, Seq<u8>)>,
    from: int,
    key: Seq<u8>,
    expected: Option<Seq<u8>>,
)
    requires
        ascending(entries),
        0 <= from <= entries.len(),
        forall|t: int| 0 <= t < from ==> (#[trigger] entries[t]).0 != key,
        expected matches Some(value) ==> exists|t: int|
            0 <= t < entries.len() && #[trigger] entries[t] == (key, value),
        expected is None ==> forall|t: int|
            0 <= t < entries.len() ==> (#[trigger] entries[t]).0 != key,
    ensures
        first_from(entries, from, key) == expected,
    decreases entries.len() - from,
{
    if from < entries.len() {
        if entries[from].0 == key {
            if expected is Some {
                let t = choose|t: int|
                    0 <= t < entries.len() && #[trigger] entries[t] == (key, expected->0);
                if t < from {
                } else if t > from {
                    assert(key_lt(entries[from].0, entries[t].0));
                    lemma_key_lt_total(key, key);
                }
            }
        } else {
            lemma_first_from(entries, from + 1, key, expected);
        }
    } else {
        if expected is Some {
            let t = choose|t: int|
                0 <= t < entries.len() && #[trigger] entries[t] == (key, expected->0);
        }
    }
}

/// A lookup in a table of ascending pairs with the right index yields the
/// value that the pairs have for the key.
#[verifier::rlimit(50)]
pub proof fn lemma_lookup_in_pairs(
    all: Seq<(Seq<u8>, Seq<u8>)>,
    table: TableView,
    key: Seq<u8>,
    expected: Option<Seq<u8>>,
)
    requires
        ascending(all),
        index_ok(all, table.index),
        table.data == table_image(all),
        table.data.len() <= usize::MAX,
        forall|t: int|
            0 <= t < all.len() ==> (#[trigger] all[t]).0.len() <= u32::MAX && all[t].1.len()
                <= u32::MAX,
        forall|t: int| 0 <= t < all.len() ==> table.admitted.contains((#[trigger] all[t]).0),
        expected matches Some(value) ==> exists|t: int|
            0 <= t < all.len() && #[trigger] all[t] == (key, value),
        expected is None ==> forall|t: int| 0 <= t < all.len() ==> (#[trigger] all[t]).0 != key,
    ensures
        table.lookup(key) == Ok::<Option<Seq<u8>>, StoreError>(expected),
{
    if expected is Some {
        let t = choose|t: int| 0 <= t < all.len() && #[trigger] all[t] == (key, expected->0);
        assert(table.admitted.contains(all[t].0));
    }
    if table.admitted.contains(key) {
        let ix = table.index;
        let n = crate::sparse_index::reached(ix.entries, key);
        lemma_reached(ix.entries, key);
        if n == 0 {
            // the key comes before the first key of the table
            if expected is Some {
                let t = choose|t: int|
                    0 <= t < all.len() && #[trigger] all[t] == (key, expected->0);
                assert(key_lt(key, all[0].0));
                if t > 0 {
                    assert(key_lt(all[0].0, all[t].0));
                    lemma_key_lt_transitive(key, all[0].0, key);
                }
                lemma_key_lt_total(key, key);
            }
        } else {
            let entry = ix.entries[n - 1];
            assert(indexed(all, ix.entries[n - 1]));
            let t = choose|t: int|
                0 <= t < all.len() && entry == (
                    (#[trigger] all[t]).0,
                    table_offset(all, t) as usize,
                );
            lemma_offsets(all, t, all.len() as int);
            assert(entry.1 as int == table_offset(all, t));
            assert(!key_lt(key, all[t].0));
            lemma_found_from(all, table, key, expected, t);
            assert(table.index.offset_for(key) == Some(entry.1));
        }
    }
}

/// A scan from the offset of a pair that does not come after the key
/// finds the value that the pairs have for the key.
#[verifier::rlimit(50)]
proof fn lemma_found_from(
    all: Seq<(Seq<u8>, Seq<u8>)>,
    table: TableView,
    key: Seq<u8>,
    expected: Option<Seq<u8>>,
    t: int,
)
    requires
        ascending(all),
        table.data == table_image(all),
        0 <= t < all.len(),
        !key_lt(key, all[t].0),
        forall|t: int|
            0 <= t < all.len() ==> (#[trigger] all[t]).0.len() <= u32::MAX && all[t].1.len()
                <= u32::MAX,
        expected matches Some(value) ==> exists|t: int|
            0 <= t < all.len() && #[trigger] all[t] == (key, value),
        expected is None ==> forall|t: int| 0 <= t < all.len() ==> (#[trigger] all[t]).0 != key,
    ensures
        scan_from(table.data, table_offset(all, t), key) == Ok::<Option<Seq<u8>>, StoreError>(
            expected,
        ),
{
    assert forall|u: int| 0 <= u < t implies (#[trigger] all[u]).0 != key by {
        assert(key_lt(all[u].0, all[t].0));
    }
    lemma_first_from(all, t, key, expected);
    lemma_scan_table(all, t, key);
}

/// A lookup in the table of listed leaves yields what the leaves store.
#[verifier::rlimit(50)]
pub proof fn lemma_table_lookup(
    leaves: Seq<Leaf>,
    m: LeafManagerView,
    dump: Seq<Seq<(Vec<u8>, Vec<u8>, usize)>>,
    table: TableView,
    key: Seq<u8>,
    expected: Option<Seq<u8>>,
)
    requires
        listed(leaves, m, dump),
        table.data == table_image(flattened(dump)),
        table.data.len() <= usize::MAX,
        table.index == index_of(flattened(dump)),
        forall|t: int|
            0 <= t < flattened(dump).len() ==> table.admitted.contains(
                (#[trigger] flattened(dump)[t]).0,
            ),
        expected matches Some(value) ==> exists|i: int|
            0 <= i < leaves.len() && (#[trigger] leaves[i]).lookup(m, key) == Some(value),
        expected is None ==> forall|i: int|
            0 <= i < leaves.len() ==> (#[trigger] leaves[i]).lookup(m, key) is None,
    ensures
        table.lookup(key) == Ok::<Option<Seq<u8>>, StoreError>(expected),
{
    let all = flattened(dump);
    lemma_flattened(leaves, m, dump);
    lemma_index_of(all);
    // what the leaves store for the key is what the pairs have for it
    if expected is Some {
        let i = choose|i: int|
            0 <= i < leaves.len() && (#[trigger] leaves[i]).lookup(m, key) == Some(expected->0);
        assert(leaves[i].lookup(m, key) is Some);
        let t = choose|t: int|
            0 <= t < all.len() && #[trigger] all[t] == (key, leaves[i].lookup(m, key)->0);
        assert(all[t] == (key, expected->0));
    } else {
        assert forall|t: int| 0 <= t < all.len() implies (#[trigger] all[t]).0 != key by {
            if all[t].0 == key {
                assert(stored_in(leaves, m, all[t], 0, leaves.len() as int));
            }
        }
    }
    lemma_lookup_in_pairs(all, table, key, expected);
}

/// What a table is to a lookup, from what is known of it and the bytes of
/// its file.
pub open spec fn table_view(info: TableInfo, data: Seq<u8>) -> TableView {
    TableView {
        id: info.id,
        size: info.size,
        level: info.level,
        admitted: bloom_admitted(info.filter),
        index: info.index@,
        data,
    }
}

/// A lookup in the table that a sound tree was written out to yields what
/// the tree stores.
#[verifier::rlimit(50)]
pub proof fn lemma_flushed_tree(tree: FPTree, bytes: Seq<u8>, info: TableInfo, key: Seq<u8>)
    requires
        tree.wf(),
        flush_result(tree.manager(), leaf_ids(tree.root().leaves()), bytes, info),
    ensures
        table_view(info, bytes).lookup(key) == Ok::<Option<Seq<u8>>, StoreError>(tree.lookup(key)),
{
    let m = tree.manager();
    let root = tree.root();
    let leaves = root.leaves();
    let ids = leaf_ids(leaves);
    let dump = choose|dump: Seq<Seq<(Vec<u8>, Vec<u8>, usize)>>| flushed(m, ids, dump, bytes, info);
    assert(listed(leaves, m, dump)) by {
        assert forall|i: int| 0 <= i < leaves.len() implies (#[trigger] leaves[i]).wf(m) by {
            lemma_leaves_sound(root, m, None, None, i);
        }
        assert forall|i: int| 0 <= i < leaves.len() implies sorted_listing(
            leaves[i],
            m,
            #[trigger] dump[i],
        ) by {
            lemma_leaves_sound(root, m, None, None, i);
            assert(leaf_sorted(m, ids[i] as int, dump[i]));
            lemma_leaf_sorted_listing(leaves[i], m, dump[i]);
        }
        assert forall|i: int, j: int, k1: Seq<u8>, k2: Seq<u8>|
            0 <= i < j < leaves.len() && (#[trigger] leaves[i].lookup(m, k1)) is Some && (
            #[trigger] leaves[j].lookup(m, k2)) is Some implies key_lt(k1, k2) by {
            lemma_leaves_ordered(root, m, None, None, i, j, k1, k2);
        }
    }
    let expected = tree.lookup(key);
    if expected is Some {
        let i = lemma_lookup_leaf(root, m, None, None, key);
        assert(leaves[i].lookup(m, key) == Some(expected->0));
    } else {
        assert forall|i: int| 0 <= i < leaves.len() implies (#[trigger] leaves[i]).lookup(m, key)
            is None by {
            lemma_leaves_sound(root, m, None, None, i);
        }
    }
    lemma_table_lookup(leaves, m, dump, table_view(info, bytes), key, expected);
}


/// The leaf file of a sound tree, when it is found again, has the leaves
/// of the tree in use and leads through them in the order of the tree.
#[verifier::rlimit(50)]
pub proof fn lemma_recovered_chain(tree: FPTree)
    requires
        tree.wf(),
    ensures
        tree.manager().data.len() / 1048576 < 0xFFFF_FFFF,
        recovered_view(tree.manager().data).mapped.len() == tree.manager().mapped.len(),
        recovered_chain(tree.manager().data) == Some(leaf_ids(tree.root().leaves())),
        forall|i: int|
            0 <= i < tree.root().leaves().len() ==> recovered_view(tree.manager().data).is_mapped(
                (#[trigger] tree.root().leaves()[i]).id() as int,
            ),
{
    let m = tree.manager();
    let data = m.data;
    let r = recovered_view(data);
    let root = tree.root();
    let leaves = root.leaves();
    let ids = leaf_ids(leaves);
    tree.lemma_tree_chain();
    tree.lemma_manager_wf();
    lemma_leaf_count(root, m, None, None);
    let pages = m.mapped.len() as int;
    assert(data.len() as int / 1048576 == pages) by (nonlinear_arith)
        requires
            pages * 1048576 <= data.len() < (pages + 1) * 1048576,
            pages >= 0,
    ;
    assert(r.mapped.len() == pages);
    assert forall|i: int| 0 <= i < leaves.len() implies r.is_mapped(
        (#[trigger] leaves[i]).id() as int,
    ) by {
        lemma_leaves_sound(root, m, None, None, i);
        assert(leaves[i].wf(m));
    }
    crate::fptree::inner::lemma_leaf_chain(root, m, r, None, None, None, r.mapped.len());
    assert(ids + Seq::<usize>::empty() =~= ids);
}

/// A lookup in the table that the leaf file of a sound tree is written
/// out to when it is found again yields what the tree stored.
#[verifier::rlimit(50)]
pub proof fn lemma_recovered_tree(tree: FPTree, bytes: Seq<u8>, info: TableInfo, key: Seq<u8>)
    requires
        tree.wf(),
        recovered_chain(tree.manager().data) matches Some(chain) && flush_result(
            recovered_view(tree.manager().data),
            chain,
            bytes,
            info,
        ),
    ensures
        recovered_chain(tree.manager().data) == Some(leaf_ids(tree.root().leaves())),
        table_view(info, bytes).lookup(key) == Ok::<Option<Seq<u8>>, StoreError>(tree.lookup(key)),
{
    let m = tree.manager();
    let data = m.data;
    let r = recovered_view(data);
    let root = tree.root();
    let leaves = root.leaves();
    let ids = leaf_ids(leaves);
    lemma_recovered_chain(tree);
    let dump = choose|dump: Seq<Seq<(Vec<u8>, Vec<u8>, usize)>>| flushed(r, ids, dump, bytes, info);
    assert(flushed(m, ids, dump, bytes, info)) by {
        assert forall|i: int| 0 <= i < ids.len() implies leaf_sorted(
            m,
            ids[i] as int,
            #[trigger] dump[i],
        ) by {
            lemma_leaves_sound(root, m, None, None, i);
            assert(leaf_sorted(r, ids[i] as int, dump[i]));
            let (h, pairs) = choose|h: LeafHeader, pairs: Seq<(Vec<u8>, Vec<u8>, usize)>|
                {
                    &&& r.is_mapped(ids[i] as int)
                    &&& #[trigger] r.holds_header(ids[i] as int, h)
                    &&& #[trigger] header_lists(h, r, pairs, 32)
                    &&& dump[i].to_multiset() == pairs.to_multiset()
                    &&& crate::util::entry_sort::sorted_entries(dump[i])
                };
            assert(m.holds_header(ids[i] as int, h));
            assert(header_lists(h, m, pairs, 32)) by {
                assert forall|s: int| header_slot_result(h, m, s) == header_slot_result(h, r, s) by {}
            }
        }
    }
    assert(flush_result(m, ids, bytes, info));
    lemma_flushed_tree(tree, bytes, info, key);
}

/// Writing a sound tree out fails only where no id is left for the table.
#[verifier::rlimit(50)]
pub proof fn lemma_flush_failure(tree: FPTree, e: StoreError, next_id: int)
    requires
        tree.wf(),
        flush_failure(tree.manager(), leaf_ids(tree.root().leaves()), e, next_id),
    ensures
        e == StoreError::NoSpace,
        next_id + 2 > usize::MAX,
{
    let m = tree.manager();
    let root = tree.root();
    let leaves = root.leaves();
    let ids = leaf_ids(leaves);
    assert forall|i: int| 0 <= i < ids.len() implies m.is_mapped(#[trigger] ids[i] as int)
        && !leaf_read_fails(m, ids[i] as int, e) by {
        lemma_leaves_sound(root, m, None, None, i);
        let leaf = leaves[i];
        assert(leaf.owns(leaf.id() as int));
        crate::fptree::leaf::lemma_leaf_owned_mapped(leaf, m, leaf.id() as int);
        if leaf_read_fails(m, ids[i] as int, e) {
            let (h, s) = choose|h: LeafHeader, s: int|
                {
                    &&& #[trigger] m.holds_header(ids[i] as int, h)
                    &&& 0 <= s < 32
                    &&& h.occupied(s)
                    &&& #[trigger] header_slot_result(h, m, s) == Err::<
                        (Seq<u8>, Seq<u8>),
                        StoreError,
                    >(e)
                };
            lemma_header_bytes_injective(h, leaf.header());
            assert(leaf.slot_wf(m, s));
            assert(leaf.slot_result(m, s) == header_slot_result(h, m, s));
        }
    }
}

/// Writing the leaf file of a sound tree out when it is found again fails
/// only where no id is left for the table.
#[verifier::rlimit(50)]
pub proof fn lemma_recovery_failure(tree: FPTree, e: StoreError, next_id: int)
    requires
        tree.wf(),
        recovered_chain(tree.manager().data) matches Some(chain) && flush_failure(
            recovered_view(tree.manager().data),
            chain,
            e,
            next_id,
        ),
    ensures
        e == StoreError::NoSpace,
        next_id + 2 > usize::MAX,
{
    let m = tree.manager();
    let r = recovered_view(m.data);
    let root = tree.root();
    let leaves = root.leaves();
    let ids = leaf_ids(leaves);
    lemma_recovered_chain(tree);
    assert forall|i: int| 0 <= i < ids.len() implies r.is_mapped(#[trigger] ids[i] as int) by {
        assert(r.is_mapped(leaves[i].id() as int));
    }
    assert forall|i: int, x: StoreError|
        0 <= i < ids.len() && #[trigger] leaf_read_fails(
            r,
            #[trigger] ids[i] as int,
            x,
        ) implies leaf_read_fails(m, ids[i] as int, x) by {
        let (h, s) = choose|h: LeafHeader, s: int|
            {
                &&& #[trigger] r.holds_header(ids[i] as int, h)
                &&& 0 <= s < 32
                &&& h.occupied(s)
                &&& #[trigger] header_slot_result(h, r, s) == Err::<(Seq<u8>, Seq<u8>), StoreError>(
                    x,
                )
            };
        assert(m.holds_header(ids[i] as int, h));
        assert(header_slot_result(h, m, s) == header_slot_result(h, r, s));
    }
    assert(flush_failure(m, ids, e, next_id));
    lemma_flush_failure(tree, e, next_id);
}


/// The sorted keys of the leaves of a sound tree, taken leaf after leaf in
/// the order of the sibling chain, ascend.
#[verifier::rlimit(50)]
pub proof fn lemma_chain_order(tree: FPTree, dump: Seq<Seq<(Vec<u8>, Vec<u8>, usize)>>)
    requires
        tree.wf(),
        tree.manager().leaf_chain(0, tree.manager().mapped.len()) matches Some(chain)
            && dump.len() == chain.len() && forall|i: int|
            0 <= i < chain.len() ==> leaf_sorted(tree.manager(), chain[i] as int, #[trigger] dump[i]),
    ensures
        ascending(flattened(dump)),
{
    let m = tree.manager();
    let root = tree.root();
    let leaves = root.leaves();
    let ids = leaf_ids(leaves);
    tree.lemma_tree_chain();
    assert(listed(leaves, m, dump)) by {
        assert forall|i: int| 0 <= i < leaves.len() implies (#[trigger] leaves[i]).wf(m) by {
            lemma_leaves_sound(root, m, None, None, i);
        }
        assert forall|i: int| 0 <= i < leaves.len() implies sorted_listing(
            leaves[i],
            m,
            #[trigger] dump[i],
        ) by {
            lemma_leaves_sound(root, m, None, None, i);
            assert(leaf_sorted(m, ids[i] as int, dump[i]));
            lemma_leaf_sorted_listing(leaves[i], m, dump[i]);
        }
        assert forall|i: int, j: int, k1: Seq<u8>, k2: Seq<u8>|
            0 <= i < j < leaves.len() && (#[trigger] leaves[i].lookup(m, k1)) is Some && (
            #[trigger] leaves[j].lookup(m, k2)) is Some implies key_lt(k1, k2) by {
            lemma_leaves_ordered(root, m, None, None, i, j, k1, k2);
        }
    }
    lemma_flattened(leaves, m, dump);
}

/// A leaf file in which the header of the primary page of one leaf of a
/// sound tree was broken, and nothing else, still leads through the
/// leaves before that leaf, and writing them out fails only where no id
/// is left for the table.
#[verifier::rlimit(50)]
pub proof fn lemma_recovered_after_corruption(tree: FPTree, image: Seq<u8>, i: int)
    requires
        tree.wf(),
        0 <= i < tree.root().leaves().len(),
        image.len() == tree.manager().data.len(),
        forall|q: int|
            0 <= q && q != tree.root().leaves()[i].id() && (q + 1) * 1048576
                <= image.len() ==> #[trigger] image.subrange(q * 1048576, (q + 1) * 1048576)
                == tree.manager().data.subrange(q * 1048576, (q + 1) * 1048576),
        !crate::fptree::leaf_manager::page_recoverable(
            image,
            tree.root().leaves()[i].id() as int,
        ),
    ensures
        recovered_chain(image) == Some(leaf_ids(tree.root().leaves()).subrange(0, i)),
        forall|e: StoreError, next_id: int| #[trigger]
            flush_failure(
                recovered_view(image),
                leaf_ids(tree.root().leaves()).subrange(0, i),
                e,
                next_id,
            ) ==> e == StoreError::NoSpace && next_id + 2 > usize::MAX,
{
    let m = tree.manager();
    let r = recovered_view(image);
    let root = tree.root();
    let leaves = root.leaves();
    let ids = leaf_ids(leaves);
    let p = ids[i] as int;
    tree.lemma_tree_chain();
    tree.lemma_manager_wf();
    lemma_leaf_count(root, m, None, None);
    let pages = m.mapped.len() as int;
    assert(image.len() as int / 1048576 == pages) by (nonlinear_arith)
        requires
            pages * 1048576 <= image.len() < (pages + 1) * 1048576,
            pages >= 0,
    ;
    assert(r.mapped.len() == pages);
    assert forall|q: int| m.is_mapped(q) && q != p implies m.same_page(r, q) by {
        assert((q + 1) * 1048576 <= pages * 1048576) by (nonlinear_arith)
            requires
                q + 1 <= pages,
        ;
    }
    assert forall|k: int| 0 <= k < i implies r.is_mapped(#[trigger] ids[k] as int)
        && r.page_next(ids[k] as int) == m.page_next(ids[k] as int) by {
        let q = ids[k] as int;
        lemma_leaves_sound(root, m, None, None, k);
        crate::fptree::inner::lemma_leaf_ids_distinct(root, m, None, None, k, i);
        assert(leaves[k].owns(q));
        crate::fptree::leaf::lemma_leaf_owned_mapped(leaves[k], m, q);
        crate::fptree::leaf_manager::lemma_same_page(m, r, q);
        assert(m.recoverable(q));
        assert(image.subrange(q * 1048576, q * 1048576 + 568) == m.header_page_region(q));
        assert(image.subrange(q * 1048576, q * 1048576 + 4) =~= m.data.subrange(
            q * 1048576,
            q * 1048576 + 4,
        )) by {
            assert(image.subrange(q * 1048576, q * 1048576 + 4) =~= r.header_page_region(
                q,
            ).subrange(0, 4));
            assert(m.data.subrange(q * 1048576, q * 1048576 + 4) =~= m.header_page_region(
                q,
            ).subrange(0, 4));
        }
    }
    crate::fptree::leaf_manager::lemma_chain_cut(m, r, 0, pages as nat, ids, i);
    assert forall|e: StoreError, next_id: int| #[trigger]
        flush_failure(r, ids.subrange(0, i), e, next_id) implies e == StoreError::NoSpace
        && next_id + 2 > usize::MAX by {
        let chain = ids.subrange(0, i);
        assert forall|k: int| 0 <= k < chain.len() implies r.is_mapped(#[trigger] chain[k] as int)
            && !leaf_read_fails(r, chain[k] as int, e) by {
            let q = ids[k] as int;
            let leaf = leaves[k];
            assert(chain[k] == ids[k]);
            assert(r.is_mapped(ids[k] as int));
            lemma_leaves_sound(root, m, None, None, k);
            assert(leaf.owns(q));
            crate::fptree::leaf::lemma_leaf_owned_mapped(leaf, m, q);
            crate::fptree::inner::lemma_leaf_ids_distinct(root, m, None, None, k, i);
            crate::fptree::leaf_manager::lemma_same_page(m, r, q);
            if leaf_read_fails(r, q, e) {
                let (h, s) = choose|h: LeafHeader, s: int|
                    {
                        &&& #[trigger] r.holds_header(q, h)
                        &&& 0 <= s < 32
                        &&& h.occupied(s)
                        &&& #[trigger] header_slot_result(h, r, s) == Err::<
                            (Seq<u8>, Seq<u8>),
                            StoreError,
                        >(e)
                    };
                lemma_header_bytes_injective(h, leaf.header());
                assert(leaf.slot_wf(m, s));
                let info = leaf.header().kv_info[s];
                let page = info.page_id as int;
                assert(leaf.owns(page));
                assert(leaves[i].owns(p));
                crate::fptree::inner::lemma_leaves_disjoint(root, m, None, None, k, i, page);
                assert(page != p);
                crate::fptree::leaf_manager::lemma_same_page(m, r, page);
                crate::fptree::leaf_manager::lemma_read_same_arena(
                    m,
                    r,
                    page,
                    1048576,
                    info.offset as int,
                    info.key_size as int,
                    info.value_size as int,
                );
                assert(header_slot_result(h, r, s) == leaf.slot_result(m, s));
            }
        }
    }
}

} // verus!
