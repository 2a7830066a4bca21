use crate::amphis_error::StoreError;
use crate::fptree::leaf_manager::types::{
    fresh_header, lemma_fresh_header_empty, LeafHeader, END_TAIL_OFFSET, HEADER_MAGIC, INITIAL_TAIL_OFFSET, INVALID_LEAF_ID, NUM_SLOT,
};
use crate::fptree::leaf_manager::types::KVInfo;
use crate::fptree::leaf_manager::{
    fits_page, lemma_commit_frame, lemma_ext_page_frame, lemma_header_after_commit,
    lemma_header_fields, lemma_read_after_write, lemma_read_same_arena, lemma_same_page,
    lemma_write_frame, LeafManager, LeafManagerView,
};
use crate::util::data_util::copy_range;
use crate::util::entry_sort::{lemma_entry_lt_total, sort_entries, sorted_entries};
use crate::util::key_order::{key_equal, key_less, key_lt, lemma_key_lt_total};
use std::collections::hash_map::DefaultHasher;
use std::hash::Hasher;
use vstd::prelude::*;
use vstd::std_specs::hash::DefaultHasherAdditionalSpecFns;

verus! {

/// A leaf of the tree: the working copy of its header, its primary page
/// and the page it currently writes to.
pub struct Leaf {
    header: LeafHeader,
    id: usize,
    page_id: usize,
    is_root: bool,
}

/// What the hasher is fed for a key: every byte on its own.
pub open spec fn key_writes(key: Seq<u8>) -> Seq<Seq<u8>> {
    Seq::new(key.len(), |i: int| seq![key[i]])
}

/// The fingerprint of a key: the low byte of its hash.
pub open spec fn key_hash(key: Seq<u8>) -> u8 {
    DefaultHasher::spec_finish(key_writes(key)) as u8
}

impl Leaf {
    /// The working copy of the header.
    pub closed spec fn header(&self) -> LeafHeader {
        self.header
    }

    /// The primary page.
    pub closed spec fn id(&self) -> usize {
        self.id
    }

    /// The page that the next pair is written to.
    pub closed spec fn page_id(&self) -> usize {
        self.page_id
    }

    pub closed spec fn root_flag(&self) -> bool {
        self.is_root
    }

    /// What reading the pair of slot `s` yields.
    pub open spec fn slot_result(&self, m: LeafManagerView, s: int) -> Result<
        (Seq<u8>, Seq<u8>),
        StoreError,
    > {
        let info = self.header().kv_info[s];
        m.read_result(
            info.page_id as int,
            info.offset as int,
            info.key_size as int,
            info.value_size as int,
        )
    }

    /// The key that slot `s` points to.
    pub open spec fn slot_key(&self, m: LeafManagerView, s: int) -> Seq<u8> {
        self.slot_result(m, s)->Ok_0.0
    }

    /// The value that slot `s` points to.
    pub open spec fn slot_value(&self, m: LeafManagerView, s: int) -> Seq<u8> {
        self.slot_result(m, s)->Ok_0.1
    }

    /// Slot `s` is taken and points to `key`.
    pub open spec fn holds(&self, m: LeafManagerView, s: int, key: Seq<u8>) -> bool {
        0 <= s < 32 && self.header().occupied(s) && self.slot_key(m, s) == key
    }

    /// The value stored for `key`, if any.
    pub open spec fn lookup(&self, m: LeafManagerView, key: Seq<u8>) -> Option<Seq<u8>> {
        if exists|s: int| self.holds(m, s, key) {
            Some(self.slot_value(m, choose|s: int| self.holds(m, s, key)))
        } else {
            None
        }
    }

    /// The pairs of the leaf as a map.
    pub open spec fn contents(&self, m: LeafManagerView) -> Map<Seq<u8>, Seq<u8>> {
        Map::new(
            |key: Seq<u8>| self.lookup(m, key) is Some,
            |key: Seq<u8>| self.lookup(m, key)->0,
        )
    }

    /// Up to where the bytes of page `p` are settled for this leaf: the
    /// write frontier in the page it writes to, the whole page elsewhere.
    pub open spec fn limit(&self, p: int) -> int {
        if p == self.page_id() {
            self.header().tail_offset as int
        } else {
            1048576
        }
    }

    /// The pair of a taken slot lies in the data arena of a page in use,
    /// below the write frontier; it reads back, and the slot's fingerprint
    /// is that of its key.
    pub open spec fn slot_wf(&self, m: LeafManagerView, s: int) -> bool {
        let info = self.header().kv_info[s];
        &&& m.is_mapped(info.page_id as int)
        &&& info.offset >= 4096
        &&& fits_page(info.offset as int, info.key_size as int, info.value_size as int)
        &&& info.offset + info.key_size + info.value_size + 16 <= self.limit(info.page_id as int)
        &&& self.slot_result(m, s) is Ok
        &&& self.header().fingerprints[s] == key_hash(self.slot_key(m, s))
    }

    /// The leaf's pages are in use, its header is committed, the extension
    /// chain of the primary page ends in the page it writes to, every taken
    /// slot is sound, and no two taken slots hold the same key.
    pub open spec fn wf(&self, m: LeafManagerView) -> bool {
        &&& self.base(m)
        &&& m.holds_header(self.id() as int, self.header())
        &&& m.recoverable(self.id() as int)
    }

    /// The committed header of the primary page leads to the page that the
    /// leaf writes to.
    pub open spec fn disk_ext_ok(&self, m: LeafManagerView) -> bool {
        m.page_ext(self.id() as int) == (if self.page_id() == self.id() {
            None
        } else {
            Some(self.page_id())
        })
    }

    /// All that a sound leaf is, but that its header is committed.
    pub open spec fn base(&self, m: LeafManagerView) -> bool {
        &&& m.wf()
        &&& self.header().magic == HEADER_MAGIC
        &&& m.is_mapped(self.id() as int)
        &&& m.is_mapped(self.page_id() as int)
        &&& 4096 <= self.header().tail_offset <= 1044480
        &&& if self.page_id() == self.id() {
            self.header().ext == INVALID_LEAF_ID
        } else {
            self.header().ext == self.page_id() && m.page_ext(self.page_id() as int) is None
        }
        &&& forall|s: int| 0 <= s < 32 && self.header().occupied(s) ==> self.slot_wf(m, s)
        &&& forall|s: int, t: int|
            0 <= s < 32 && 0 <= t < 32 && s != t && self.header().occupied(s)
                && self.header().occupied(t) ==> self.slot_key(m, s) != self.slot_key(m, t)
    }

    /// Every pair of `before` under `a` is a pair of this leaf under `b`,
    /// in the same slot and at the same place.
    pub open spec fn keeps(&self, b: LeafManagerView, before: Leaf, a: LeafManagerView) -> bool {
        forall|t: int|
            0 <= t < 32 && before.header().occupied(t) ==> {
                &&& self.header().kv_info[t] == before.header().kv_info[t]
                &&& self.header().fingerprints[t] == before.header().fingerprints[t]
                &&& #[trigger] self.slot_result(b, t) == before.slot_result(a, t)
                &&& b.is_mapped(before.header().kv_info[t].page_id as int)
            }
    }

    /// Page `p` belongs to this leaf.
    pub open spec fn owns(&self, p: int) -> bool {
        ||| p == self.id()
        ||| p == self.page_id()
        ||| exists|s: int|
            0 <= s < 32 && self.header().occupied(s) && (#[trigger] self.header().kv_info[s]).page_id
                == p
    }

    pub fn is_root(&self) -> (root: bool)
        ensures
            root == self.root_flag(),
    {
        self.is_root
    }

    pub fn set_root(&mut self, is_root: bool)
        ensures
            final(self).root_flag() == is_root,
            final(self).header() == old(self).header(),
            final(self).id() == old(self).id(),
            final(self).page_id() == old(self).page_id(),
    {
        self.is_root = is_root;
    }

    pub fn is_leaf(&self) -> (leaf: bool)
        ensures
            leaf,
    {
        true
    }

    /// The page id of the next leaf of the sibling chain.
    pub fn get_next(&self) -> (next: Option<usize>)
        ensures
            next == self.header().spec_next(),
    {
        self.header.get_next()
    }

    pub fn may_need_split(&self) -> (full: bool)
        ensures
            full == self.header().full(),
    {
        self.header.need_split()
    }

    /// The primary page of the leaf.
    pub fn get_id(&self) -> (id: usize)
        ensures
            id == self.id(),
    {
        self.id
    }

    /// The working copy of the header.
    pub fn get_header(&self) -> (header: &LeafHeader)
        ensures
            *header == self.header(),
    {
        &self.header
    }

    /// The fingerprint of `key`.
    pub fn calc_key_hash(key: &Vec<u8>) -> (hash: u8)
        ensures
            hash == key_hash(key@),
    {
        let mut hasher: DefaultHasher = DefaultHasher::new();
        let mut i: usize = 0;
        while i < key.len()
            invariant
                i <= key@.len(),
                hasher@ == key_writes(key@.subrange(0, i as int)),
            decreases key@.len() - i,
        {
            let one: [u8; 1] = [key[i]];
            hasher.write(one.as_slice());
            i = i + 1;
            assert(hasher@ =~= key_writes(key@.subrange(0, i as int))) by {
                assert(one@ =~= seq![key@[i - 1]]);
            }
        }
        assert(key@.subrange(0, key@.len() as int) == key@);
        #[verifier::truncate]
        (hasher.finish() as u8)
    }

    /// The taken slots whose fingerprint is that of `key`, ascending.
    pub fn get_existing_slots(&self, key: &Vec<u8>) -> (slots: Vec<usize>)
        ensures
            forall|i: int|
                0 <= i < slots@.len() ==> (#[trigger] slots@[i]) < 32 && self.header().occupied(
                    slots@[i] as int,
                ) && self.header().fingerprints[slots@[i] as int] == key_hash(key@),
            forall|s: int|
                0 <= s < 32 && self.header().occupied(s) && self.header().fingerprints[s]
                    == key_hash(key@) ==> slots@.contains(s as usize),
            forall|i: int, j: int| 0 <= i < j < slots@.len() ==> slots@[i] < slots@[j],
    {
        let mut slots: Vec<usize> = Vec::new();
        let hash: u8 = Leaf::calc_key_hash(key);
        let fingerprints: &[u8] = self.header.get_fingerprints();
        let mut slot: usize = 0;
        while slot < NUM_SLOT
            invariant
                slot <= 32,
                hash == key_hash(key@),
                fingerprints@ == self.header.fingerprints@,
                forall|i: int|
                    0 <= i < slots@.len() ==> (#[trigger] slots@[i]) < slot
                        && self.header.occupied(slots@[i] as int)
                        && self.header.fingerprints[slots@[i] as int] == hash,
                forall|s: int|
                    0 <= s < slot && self.header.occupied(s) && self.header.fingerprints[s]
                        == hash ==> slots@.contains(s as usize),
                forall|i: int, j: int| 0 <= i < j < slots@.len() ==> slots@[i] < slots@[j],
            decreases 32 - slot,
        {
            if self.header.is_slot_set(slot) && fingerprints[slot] == hash {
                let ghost before = slots@;
                slots.push(slot);
                assert(slots@[slots@.len() - 1] == slot);
                assert forall|s: int|
                    0 <= s < slot + 1 && self.header.occupied(s) && self.header.fingerprints[s]
                        == hash implies slots@.contains(s as usize) by {
                    if s < slot {
                        let k = choose|k: int| 0 <= k < before.len() && before[k] == s as usize;
                        assert(slots@[k] == s as usize);
                    }
                }
            }
            slot = slot + 1;
        }
        slots
    }
}


/// A sound leaf stores at most one value per key: the slot that holds a key
/// gives its value.
pub proof fn lemma_lookup_unique(leaf: Leaf, m: LeafManagerView, s: int, key: Seq<u8>)
    requires
        leaf.wf(m),
        leaf.holds(m, s, key),
    ensures
        leaf.lookup(m, key) == Some(leaf.slot_value(m, s)),
{
    let t = choose|t: int| leaf.holds(m, t, key);
    assert(t == s);
}

/// A leaf whose pages kept their bytes is as sound as before and stores
/// what it stored.
#[verifier::rlimit(50)]
pub proof fn lemma_leaf_preserved(leaf: Leaf, a: LeafManagerView, b: LeafManagerView)
    requires
        leaf.wf(a),
        b.wf(),
        forall|p: int| leaf.owns(p) ==> b.is_mapped(p) && a.same_page(b, p),
    ensures
        leaf.wf(b),
        forall|s: int|
            0 <= s < 32 && leaf.header().occupied(s) ==> leaf.slot_result(b, s)
                == leaf.slot_result(a, s),
        forall|key: Seq<u8>| leaf.lookup(b, key) == leaf.lookup(a, key),
        leaf.contents(b) == leaf.contents(a),
{
    assert(leaf.owns(leaf.id() as int));
    assert(leaf.owns(leaf.page_id() as int));
    lemma_same_page(a, b, leaf.id() as int);
    lemma_same_page(a, b, leaf.page_id() as int);
    assert forall|s: int| 0 <= s < 32 && leaf.header().occupied(s) implies leaf.slot_result(b, s)
        == leaf.slot_result(a, s) && leaf.slot_wf(b, s) by {
        let info = leaf.header().kv_info[s];
        assert(leaf.slot_wf(a, s));
        assert(leaf.owns(info.page_id as int));
        lemma_same_page(a, b, info.page_id as int);
        lemma_read_same_arena(
            a,
            b,
            info.page_id as int,
            1048576,
            info.offset as int,
            info.key_size as int,
            info.value_size as int,
        );
    }
    assert forall|key: Seq<u8>| leaf.lookup(b, key) == leaf.lookup(a, key) by {
        assert forall|s: int| leaf.holds(b, s, key) == leaf.holds(a, s, key) by {}
        if exists|s: int| leaf.holds(a, s, key) {
            let s = choose|s: int| leaf.holds(a, s, key);
            assert(leaf.holds(b, s, key));
            let t = choose|t: int| leaf.holds(b, t, key);
            assert(leaf.holds(a, t, key));
        } else {
            assert(!exists|s: int| leaf.holds(b, s, key));
        }
    }
    assert(leaf.contents(b) =~= leaf.contents(a));
}

/// What reading the pair of slot `s` of a header yields.
pub open spec fn header_slot_result(h: LeafHeader, m: LeafManagerView, s: int) -> Result<
    (Seq<u8>, Seq<u8>),
    StoreError,
> {
    let info = h.kv_info[s];
    m.read_result(
        info.page_id as int,
        info.offset as int,
        info.key_size as int,
        info.value_size as int,
    )
}

/// `pairs` are the pairs of the taken slots below `upto` of a header, each
/// with its slot, in slot order.
pub open spec fn header_lists(
    h: LeafHeader,
    m: LeafManagerView,
    pairs: Seq<(Vec<u8>, Vec<u8>, usize)>,
    upto: int,
) -> bool {
    &&& forall|i: int|
        0 <= i < pairs.len() ==> {
            let entry = #[trigger] pairs[i];
            &&& entry.2 < upto
            &&& h.occupied(entry.2 as int)
            &&& header_slot_result(h, m, entry.2 as int) == Ok::<(Seq<u8>, Seq<u8>), StoreError>(
                (entry.0@, entry.1@),
            )
        }
    &&& forall|s: int|
        0 <= s < upto && h.occupied(s) ==> exists|i: int|
            0 <= i < pairs.len() && (#[trigger] pairs[i]).2 == s
    &&& forall|i: int, j: int| 0 <= i < j < pairs.len() ==> pairs[i].2 < pairs[j].2
}

/// The pairs of all taken slots of a header with their slots, in slot
/// order; the first failure to read one where there is one.
pub fn read_kv_pairs(leaf_manager: &LeafManager, header: &LeafHeader) -> (res: Result<
    Vec<(Vec<u8>, Vec<u8>, usize)>,
    StoreError,
>)
    ensures
        match res {
            Ok(pairs) => header_lists(*header, leaf_manager@, pairs@, 32) && pairs@.len() <= 32,
            Err(e) => exists|s: int|
                0 <= s < 32 && header.occupied(s) && header_slot_result(*header, leaf_manager@, s)
                    == Err::<(Seq<u8>, Seq<u8>), StoreError>(e),
        },
{
    let mut kv_pairs: Vec<(Vec<u8>, Vec<u8>, usize)> = Vec::new();
    let mut slot: usize = 0;
    while slot < NUM_SLOT
        invariant
            slot <= 32,
            kv_pairs@.len() <= slot,
            header_lists(*header, leaf_manager@, kv_pairs@, slot as int),
        decreases 32 - slot,
    {
        if header.is_slot_set(slot) {
            let (page_id, data_offset, key_size, value_size) = header.get_kv_info(slot);
            match leaf_manager.read_data(page_id, data_offset, key_size, value_size) {
                Ok((key, value)) => {
                    let ghost before = kv_pairs@;
                    kv_pairs.push((key, value, slot));
                    proof {
                        assert(kv_pairs@[before.len() as int].2 == slot);
                        assert forall|s: int| 0 <= s < slot + 1 && header.occupied(s) implies exists|
                            i: int,
                        |
                            0 <= i < kv_pairs@.len() && (#[trigger] kv_pairs@[i]).2 == s by {
                            if s < slot {
                                let i = choose|i: int|
                                    0 <= i < before.len() && (#[trigger] before[i]).2 == s;
                                assert(kv_pairs@[i].2 == s);
                            }
                        }
                    }
                },
                Err(e) => {
                    return Err(e);
                },
            }
        }
        slot = slot + 1;
    }
    Ok(kv_pairs)
}

impl Leaf {
    /// A leaf on a page of its own, with the header of an empty leaf
    /// committed to that page.
    #[verifier::rlimit(50)]
    pub fn new(leaf_manager: &mut LeafManager) -> (res: Result<Leaf, StoreError>)
        requires
            old(leaf_manager)@.wf(),
        ensures
            final(leaf_manager)@.wf(),
            final(leaf_manager)@.grew_from(old(leaf_manager)@, 1),
            match res {
                Ok(leaf) => {
                    &&& old(leaf_manager)@.can_take()
                    &&& leaf.id() == old(leaf_manager)@.next_free()
                    &&& !old(leaf_manager)@.is_mapped(leaf.id() as int)
                    &&& leaf.page_id() == leaf.id()
                    &&& leaf.header() == fresh_header()
                    &&& !leaf.root_flag()
                    &&& final(leaf_manager)@ == old(leaf_manager)@.after_take().with_header(
                        leaf.id() as int,
                        fresh_header(),
                    )
                    &&& leaf.wf(final(leaf_manager)@)
                    &&& forall|key: Seq<u8>| leaf.lookup(final(leaf_manager)@, key) is None
                    &&& forall|p: int|
                        old(leaf_manager)@.is_mapped(p) ==> final(leaf_manager)@.is_mapped(p)
                            && #[trigger] old(leaf_manager)@.same_page(final(leaf_manager)@, p)
                },
                Err(e) => {
                    &&& e == StoreError::NoSpace
                    &&& !old(leaf_manager)@.can_take()
                    &&& final(leaf_manager)@ == old(leaf_manager)@
                },
            },
    {
        let (id, header) = match leaf_manager.allocate_leaf() {
            Ok(pair) => pair,
            Err(e) => {
                return Err(e);
            },
        };
        let ghost taken = leaf_manager@;
        leaf_manager.commit_header(id, &header);
        let leaf = Leaf { header, id, page_id: id, is_root: false };
        proof {
            lemma_header_after_commit(taken, id as int, header);
            lemma_commit_frame(taken, id as int, header);
            lemma_fresh_header_empty();
            let before = old(leaf_manager)@;
            assert forall|p: int| before.is_mapped(p) implies leaf_manager@.is_mapped(p)
                && #[trigger] before.same_page(leaf_manager@, p) by {
                assert(before.data.subrange(p * 1048576, (p + 1) * 1048576)
                    =~= taken.data.subrange(p * 1048576, (p + 1) * 1048576));
                assert(taken.same_page(leaf_manager@, p));
            }
            assert forall|key: Seq<u8>| leaf.lookup(leaf_manager@, key) is None by {
                assert forall|s: int| !leaf.holds(leaf_manager@, s, key) by {
                    lemma_fresh_header_empty();
                }
            }
        }
        Ok(leaf)
    }

    /// Writes the working copy of the header to the primary page.
    pub fn commit(&self, leaf_manager: &mut LeafManager)
        requires
            old(leaf_manager)@.wf(),
            old(leaf_manager)@.is_mapped(self.id() as int),
        ensures
            final(leaf_manager)@ == old(leaf_manager)@.with_header(
                self.id() as int,
                self.header(),
            ),
            final(leaf_manager)@.wf(),
            final(leaf_manager)@.grew_from(old(leaf_manager)@, 0),
    {
        leaf_manager.commit_header(self.id, &self.header);
    }

    /// The value stored for `key`: an empty one where the key was deleted,
    /// `None` where the leaf does not know the key.
    pub fn get(&self, leaf_manager: &LeafManager, key: &Vec<u8>) -> (res: Result<
        Option<Vec<u8>>,
        StoreError,
    >)
        requires
            self.wf(leaf_manager@),
        ensures
            match res {
                Ok(Some(value)) => self.lookup(leaf_manager@, key@) == Some(value@),
                Ok(None) => self.lookup(leaf_manager@, key@) is None,
                Err(_) => false,
            },
    {
        let slots: Vec<usize> = self.get_existing_slots(key);
        let mut i: usize = 0;
        while i < slots.len()
            invariant
                i <= slots@.len(),
                self.wf(leaf_manager@),
                forall|k: int|
                    0 <= k < slots@.len() ==> (#[trigger] slots@[k]) < 32 && self.header().occupied(
                        slots@[k] as int,
                    ),
                forall|k: int|
                    0 <= k < i ==> self.slot_key(leaf_manager@, slots@[k] as int) != key@,
            decreases slots@.len() - i,
        {
            let slot: usize = slots[i];
            assert(self.slot_wf(leaf_manager@, slot as int));
            let (page_id, data_offset, key_size, value_size) = self.header.get_kv_info(slot);
            match leaf_manager.read_data(page_id, data_offset, key_size, value_size) {
                Ok((actual_key, value)) => {
                    if key_equal(actual_key.as_slice(), key.as_slice()) {
                        proof {
                            assert(self.holds(leaf_manager@, slot as int, key@));
                            lemma_lookup_unique(*self, leaf_manager@, slot as int, key@);
                        }
                        return Ok(Some(value));
                    }
                },
                Err(e) => {
                    assert(false);
                    return Err(e);
                },
            }
            i = i + 1;
        }
        proof {
            assert forall|s: int| !self.holds(leaf_manager@, s, key@) by {
                if self.holds(leaf_manager@, s, key@) {
                    assert(self.slot_wf(leaf_manager@, s));
                    assert(slots@.contains(s as usize));
                    let k = choose|k: int| 0 <= k < slots@.len() && slots@[k] == s as usize;
                    assert(self.slot_key(leaf_manager@, slots@[k] as int) != key@);
                }
            }
        }
        Ok(None)
    }

    /// The pairs of all taken slots with their slots, in slot order.
    pub fn get_kv_pairs(&self, leaf_manager: &LeafManager) -> (res: Result<
        Vec<(Vec<u8>, Vec<u8>, usize)>,
        StoreError,
    >)
        ensures
            match res {
                Ok(pairs) => self.lists(leaf_manager@, pairs@, 32) && pairs@.len() <= 32,
                Err(e) => exists|s: int|
                    0 <= s < 32 && self.header().occupied(s) && self.slot_result(leaf_manager@, s)
                        == Err::<(Seq<u8>, Seq<u8>), StoreError>(e),
            },
    {
        match read_kv_pairs(leaf_manager, &self.header) {
            Ok(pairs) => Ok(pairs),
            Err(e) => {
                proof {
                    let s = choose|s: int|
                        0 <= s < 32 && self.header.occupied(s) && header_slot_result(
                            self.header,
                            leaf_manager@,
                            s,
                        ) == Err::<(Seq<u8>, Seq<u8>), StoreError>(e);
                    assert(self.slot_result(leaf_manager@, s) == header_slot_result(
                        self.header,
                        leaf_manager@,
                        s,
                    ));
                }
                Err(e)
            },
        }
    }

    /// `pairs` are the pairs of the taken slots below `upto`, each with its
    /// slot, in slot order.
    pub open spec fn lists(
        &self,
        m: LeafManagerView,
        pairs: Seq<(Vec<u8>, Vec<u8>, usize)>,
        upto: int,
    ) -> bool {
        header_lists(self.header(), m, pairs, upto)
    }
}


/// A committed header leads to the page that the leaf writes to.
pub proof fn lemma_wf_disk_ext(leaf: Leaf, m: LeafManagerView)
    requires
        leaf.wf(m),
    ensures
        leaf.disk_ext_ok(m),
{
    lemma_header_fields(m, leaf.id() as int, leaf.header());
}

/// The extension chain of the primary page ends in the page that the leaf
/// writes to.
proof fn lemma_ext_tail(leaf: Leaf, m: LeafManagerView)
    requires
        leaf.base(m),
        leaf.disk_ext_ok(m),
    ensures
        m.ext_tail(leaf.id() as int, m.mapped.len()) == Some(leaf.page_id()),
{
    reveal_with_fuel(LeafManagerView::ext_tail, 3);
}

/// The value of a key is that of the only slot that holds it.
proof fn lemma_lookup_is(leaf: Leaf, m: LeafManagerView, s: int, key: Seq<u8>)
    requires
        leaf.holds(m, s, key),
        forall|t: int| leaf.holds(m, t, key) ==> t == s,
    ensures
        leaf.lookup(m, key) == Some(leaf.slot_value(m, s)),
{
    let t = choose|t: int| leaf.holds(m, t, key);
    assert(t == s);
}

impl Leaf {
    /// Clears the slot that holds `key`, if there is one.
    #[verifier::rlimit(50)]
    fn invalidate_data(&mut self, leaf_manager: &LeafManager, key: &Vec<u8>) -> (res: Result<
        (),
        StoreError,
    >)
        requires
            old(self).base(leaf_manager@),
        ensures
            res is Ok,
            final(self).base(leaf_manager@),
            final(self).id() == old(self).id(),
            final(self).page_id() == old(self).page_id(),
            final(self).root_flag() == old(self).root_flag(),
            final(self).header().same_but_bitmap(old(self).header()),
            forall|t: int|
                0 <= t < 32 ==> final(self).header().occupied(t) == (old(self).header().occupied(t)
                    && old(self).slot_key(leaf_manager@, t) != key@),
    {
        let slots: Vec<usize> = self.get_existing_slots(key);
        let mut i: usize = 0;
        while i < slots.len()
            invariant
                i <= slots@.len(),
                *self == *old(self),
                self.base(leaf_manager@),
                forall|k: int|
                    0 <= k < slots@.len() ==> (#[trigger] slots@[k]) < 32 && self.header().occupied(
                        slots@[k] as int,
                    ),
                forall|k: int|
                    0 <= k < i ==> self.slot_key(leaf_manager@, slots@[k] as int) != key@,
            decreases slots@.len() - i,
        {
            let slot: usize = slots[i];
            assert(self.slot_wf(leaf_manager@, slot as int));
            let (page_id, data_offset, key_size, value_size) = self.header.get_kv_info(slot);
            match leaf_manager.read_data(page_id, data_offset, key_size, value_size) {
                Ok((actual_key, _value)) => {
                    if key_equal(actual_key.as_slice(), key.as_slice()) {
                        self.header.unset_slot(slot);
                        proof {
                            assert forall|t: int| 0 <= t < 32 implies self.header().occupied(t)
                                == (old(self).header().occupied(t) && old(self).slot_key(
                                leaf_manager@,
                                t,
                            ) != key@) by {
                                if t != slot && old(self).header().occupied(t) {
                                    assert(old(self).slot_key(leaf_manager@, t) != old(
                                        self,
                                    ).slot_key(leaf_manager@, slot as int));
                                }
                            }
                            assert forall|t: int|
                                0 <= t < 32 && self.header().occupied(t) implies self.slot_wf(
                                leaf_manager@,
                                t,
                            ) by {
                                assert(old(self).slot_wf(leaf_manager@, t));
                            }
                        }
                        return Ok(());
                    }
                },
                Err(e) => {
                    assert(false);
                    return Err(e);
                },
            }
            i = i + 1;
        }
        proof {
            assert forall|t: int| 0 <= t < 32 && self.header().occupied(t) implies self.slot_key(
                leaf_manager@,
                t,
            ) != key@ by {
                if self.slot_key(leaf_manager@, t) == key@ {
                    assert(self.slot_wf(leaf_manager@, t));
                    assert(slots@.contains(t as usize));
                    let k = choose|k: int| 0 <= k < slots@.len() && slots@[k] == t as usize;
                    assert(self.slot_key(leaf_manager@, slots@[k] as int) != key@);
                }
            }
        }
        Ok(())
    }

    /// Enters a pair that was written at the write frontier into `slot`
    /// and moves the frontier to `tail_offset`.
    fn update_header_for_write(
        &mut self,
        slot: usize,
        tail_offset: usize,
        key: &Vec<u8>,
        value: &Vec<u8>,
    )
        requires
            slot < 32,
            tail_offset <= u32::MAX,
            key@.len() <= u32::MAX,
            value@.len() <= u32::MAX,
            old(self).page_id() <= u32::MAX,
        ensures
            final(self).id() == old(self).id(),
            final(self).page_id() == old(self).page_id(),
            final(self).root_flag() == old(self).root_flag(),
            final(self).header().magic == old(self).header().magic,
            final(self).header().next == old(self).header().next,
            final(self).header().ext == old(self).header().ext,
            final(self).header().tail_offset == tail_offset,
            forall|t: int|
                0 <= t < 32 ==> final(self).header().occupied(t) == (t == slot || old(
                    self,
                ).header().occupied(t)),
            final(self).header().fingerprints@ == old(self).header().fingerprints@.update(
                slot as int,
                key_hash(key@),
            ),
            final(self).header().kv_info@ == old(self).header().kv_info@.update(
                slot as int,
                KVInfo {
                    page_id: old(self).page_id() as u32,
                    offset: old(self).header().tail_offset,
                    key_size: key@.len() as u32,
                    value_size: value@.len() as u32,
                },
            ),
    {
        let offset: usize = self.header.get_tail_offset();
        self.header.set_slot(slot);
        let ghost marked = self.header;
        self.header.set_fingerprint(slot, Leaf::calc_key_hash(key));
        self.header.set_kv_info(slot, self.page_id, offset, key.len(), value.len());
        self.header.set_tail_offset(tail_offset);
        proof {
            assert(self.header.bitmap == marked.bitmap);
            assert forall|t: int| 0 <= t < 32 implies self.header().occupied(t) == (t == slot
                || old(self).header().occupied(t)) by {
                assert(self.header.occupied(t) == marked.occupied(t));
            }
        }
    }

    /// Appends a page to the leaf's extension chain and makes it the page
    /// that the leaf writes to.
    #[verifier::rlimit(50)]
    fn append_new_page(&mut self, leaf_manager: &mut LeafManager) -> (res: Result<(), StoreError>)
        requires
            old(self).base(old(leaf_manager)@),
            old(self).disk_ext_ok(old(leaf_manager)@),
        ensures
            final(leaf_manager)@.wf(),
            final(leaf_manager)@.grew_from(old(leaf_manager)@, 1),
            final(self).id() == old(self).id(),
            final(self).root_flag() == old(self).root_flag(),
            match res {
                Ok(_) => {
                    let new_id = old(leaf_manager)@.next_free();
                    &&& old(leaf_manager)@.can_take()
                    &&& final(leaf_manager)@ == old(leaf_manager)@.after_take().with_header(
                        new_id as int,
                        fresh_header(),
                    ).linked(old(self).page_id() as int, new_id)
                    &&& final(self).page_id() == new_id
                    &&& !old(leaf_manager)@.is_mapped(new_id as int)
                    &&& final(self).header() == (LeafHeader {
                        tail_offset: 4096,
                        ext: new_id as u32,
                        ..old(self).header()
                    })
                    &&& final(self).base(final(leaf_manager)@)
                    &&& final(self).keeps(final(leaf_manager)@, *old(self), old(leaf_manager)@)
                },
                Err(e) => {
                    &&& e == StoreError::NoSpace
                    &&& !old(leaf_manager)@.can_take()
                    &&& *final(self) == *old(self)
                    &&& final(leaf_manager)@ == old(leaf_manager)@
                },
            },
    {
        proof {
            lemma_ext_tail(*old(self), old(leaf_manager)@);
        }
        let new_page_id: usize = match leaf_manager.allocate_ext_page(self.id) {
            Ok(id) => id,
            Err(e) => {
                return Err(e);
            },
        };
        self.page_id = new_page_id;
        self.header.set_tail_offset(INITIAL_TAIL_OFFSET);
        self.header.set_ext(new_page_id);
        proof {
            let a = old(leaf_manager)@;
            let b = leaf_manager@;
            lemma_ext_page_frame(a, old(self).page_id() as int, new_page_id);
            assert forall|t: int| 0 <= t < 32 && self.header().occupied(t) implies self.slot_wf(
                b,
                t,
            ) && self.slot_result(b, t) == old(self).slot_result(a, t) by {
                let info = self.header().kv_info[t];
                assert(old(self).slot_wf(a, t));
                assert(a.same_arena(b, info.page_id as int, old(self).limit(info.page_id as int)));
                lemma_read_same_arena(
                    a,
                    b,
                    info.page_id as int,
                    old(self).limit(info.page_id as int),
                    info.offset as int,
                    info.key_size as int,
                    info.value_size as int,
                );
            }
            assert forall|s: int, t: int|
                0 <= s < 32 && 0 <= t < 32 && s != t && self.header().occupied(s)
                    && self.header().occupied(t) implies self.slot_key(b, s) != self.slot_key(
                b,
                t,
            ) by {
                assert(self.slot_result(b, s) == old(self).slot_result(a, s));
                assert(self.slot_result(b, t) == old(self).slot_result(a, t));
                assert(old(self).slot_key(a, s) != old(self).slot_key(a, t));
            }
        }
        Ok(())
    }
}


impl Leaf {
    /// The state between writing a pair at the write frontier and entering
    /// it into the header: `self` under `mm` has all pairs of `before`
    /// under `a`, and the pair lies at the frontier.
    pub open spec fn pair_written(
        &self,
        mm: LeafManagerView,
        before: Leaf,
        a: LeafManagerView,
        key: Seq<u8>,
        value: Seq<u8>,
    ) -> bool {
        &&& self.base(mm)
        &&& self.id() == before.id()
        &&& self.root_flag() == before.root_flag()
        &&& self.keeps(mm, before, a)
        &&& self.header().bitmap == before.header().bitmap
        &&& self.header().next == before.header().next
        &&& self.header().magic == before.header().magic
        &&& self.header().fingerprints == before.header().fingerprints
        &&& self.header().kv_info == before.header().kv_info
        &&& (self.page_id() == before.page_id() || !a.is_mapped(self.page_id() as int))
        &&& fits_page(self.header().tail_offset as int, key.len() as int, value.len() as int)
        &&& key.len() <= 1044480
        &&& value.len() <= 1044480
        &&& mm.read_result(
            self.page_id() as int,
            self.header().tail_offset as int,
            key.len() as int,
            value.len() as int,
        ) == Ok::<(Seq<u8>, Seq<u8>), StoreError>((key, value))
        &&& forall|p: int| a.is_mapped(p) ==> mm.is_mapped(p)
        &&& forall|p: int|
            a.is_mapped(p) && p != before.id() && p != before.page_id() ==> #[trigger] a.same_page(
                mm,
                p,
            )
    }

    /// How entering a pair into `slot` changed the header of `before`: the
    /// pair lies at the write frontier of `before`, or, where it did not
    /// fit there, at the start of the arena of the new extension page
    /// `fresh`; the slot has its place, its sizes and the fingerprint of
    /// its key; the frontier lies behind the pair; the other slots are as
    /// they were.
    pub open spec fn entered(
        &self,
        before: Leaf,
        slot: int,
        key: Seq<u8>,
        value: Seq<u8>,
        fresh: usize,
    ) -> bool {
        let fits = fits_page(
            before.header().tail_offset as int,
            key.len() as int,
            value.len() as int,
        );
        let page = if fits {
            before.page_id()
        } else {
            fresh
        };
        let offset = if fits {
            before.header().tail_offset as int
        } else {
            4096
        };
        &&& self.page_id() == page
        &&& self.header().ext == (if fits {
            before.header().ext
        } else {
            fresh as u32
        })
        &&& self.header().kv_info[slot] == (KVInfo {
            page_id: page as u32,
            offset: offset as u32,
            key_size: key.len() as u32,
            value_size: value.len() as u32,
        })
        &&& self.header().fingerprints[slot] == key_hash(key)
        &&& self.header().tail_offset == offset + round_up_int(key, value)
        &&& forall|t: int|
            0 <= t < 32 && t != slot ==> (#[trigger] self.header().kv_info[t])
                == before.header().kv_info[t] && self.header().fingerprints[t]
                == before.header().fingerprints[t]
    }

    /// The state after the pair was entered into `slot` and the header
    /// committed.
    pub open spec fn pair_stored(
        &self,
        m: LeafManagerView,
        before: Leaf,
        a: LeafManagerView,
        slot: int,
        key: Seq<u8>,
        value: Seq<u8>,
    ) -> bool {
        &&& self.wf(m)
        &&& self.id() == before.id()
        &&& self.root_flag() == before.root_flag()
        &&& self.header().next == before.header().next
        &&& self.header().magic == before.header().magic
        &&& forall|t: int|
            0 <= t < 32 ==> self.header().occupied(t) == (t == slot || before.header().occupied(t))
        &&& self.keeps(m, before, a)
        &&& self.slot_result(m, slot) == Ok::<(Seq<u8>, Seq<u8>), StoreError>((key, value))
        &&& self.header().kv_info[slot].page_id == self.page_id()
        &&& (self.page_id() == before.page_id() || !a.is_mapped(self.page_id() as int))
    }
}

/// Entering a written pair into a free slot and committing the header
/// yields a sound leaf that has the pair and all it had before.
#[verifier::rlimit(50)]
proof fn lemma_store_finish(
    before: Leaf,
    a: LeafManagerView,
    mid: Leaf,
    mm: LeafManagerView,
    after: Leaf,
    slot: int,
    key: Seq<u8>,
    value: Seq<u8>,
)
    requires
        mid.pair_written(mm, before, a, key, value),
        0 <= slot < 32,
        !before.header().occupied(slot),
        forall|t: int|
            0 <= t < 32 && before.header().occupied(t) ==> before.slot_key(a, t) != key,
        forall|s: int, t: int|
            0 <= s < 32 && 0 <= t < 32 && s != t && before.header().occupied(s)
                && before.header().occupied(t) ==> before.slot_key(a, s) != before.slot_key(a, t),
        after.id() == mid.id(),
        after.page_id() == mid.page_id(),
        after.root_flag() == mid.root_flag(),
        after.header().magic == mid.header().magic,
        after.header().next == mid.header().next,
        after.header().ext == mid.header().ext,
        after.header().tail_offset == mid.header().tail_offset + round_up_int(key, value),
        forall|t: int|
            0 <= t < 32 ==> after.header().occupied(t) == (t == slot || mid.header().occupied(t)),
        after.header().fingerprints@ == mid.header().fingerprints@.update(slot, key_hash(key)),
        after.header().kv_info@ == mid.header().kv_info@.update(
            slot,
            KVInfo {
                page_id: mid.page_id() as u32,
                offset: mid.header().tail_offset,
                key_size: key.len() as u32,
                value_size: value.len() as u32,
            },
        ),
    ensures
        after.pair_stored(mm.with_header(after.id() as int, after.header()), before, a, slot, key, value),
        mm.with_header(after.id() as int, after.header()).wf(),
        forall|p: int| a.is_mapped(p) ==> mm.with_header(after.id() as int, after.header()).is_mapped(p),
        forall|p: int|
            a.is_mapped(p) && p != before.id() && p != before.page_id() ==> #[trigger] a.same_page(
                mm.with_header(after.id() as int, after.header()),
                p,
            ),
{
    let id = after.id() as int;
    let m = mm.with_header(id, after.header());
    lemma_header_after_commit(mm, id, after.header());
    lemma_commit_frame(mm, id, after.header());
    let page = mid.page_id() as int;
    let off = mid.header().tail_offset as int;
    let ks = key.len() as int;
    let vs = value.len() as int;
    assert(m.wf());
    // the committed header keeps the header of the page that is written to
    if page != id {
        assert(mm.same_page(m, page));
        lemma_same_page(mm, m, page);
    }
    // the new pair
    assert(mm.same_arena(m, page, 1048576));
    lemma_read_same_arena(mm, m, page, 1048576, off, ks, vs);
    assert(after.header().kv_info[slot] == (KVInfo {
        page_id: mid.page_id() as u32,
        offset: mid.header().tail_offset,
        key_size: key.len() as u32,
        value_size: value.len() as u32,
    }));
    assert(after.slot_result(m, slot) == Ok::<(Seq<u8>, Seq<u8>), StoreError>((key, value)));
    assert(after.header().fingerprints[slot] == key_hash(key));
    assert(after.slot_wf(m, slot));
    // the pairs from before
    assert forall|t: int| 0 <= t < 32 && before.header().occupied(t) implies after.slot_wf(m, t)
        && after.slot_result(m, t) == before.slot_result(a, t) && after.header().kv_info[t]
        == before.header().kv_info[t] && after.header().fingerprints[t]
        == before.header().fingerprints[t] by {
        assert(t != slot);
        assert(mid.header().occupied(t));
        assert(mid.slot_wf(mm, t));
        assert(mid.slot_result(mm, t) == before.slot_result(a, t));
        let info = mid.header().kv_info[t];
        assert(after.header().kv_info[t] == info);
        assert(mm.same_arena(m, info.page_id as int, 1048576));
        lemma_read_same_arena(
            mm,
            m,
            info.page_id as int,
            1048576,
            info.offset as int,
            info.key_size as int,
            info.value_size as int,
        );
    }
    assert forall|t: int| 0 <= t < 32 && after.header().occupied(t) implies after.slot_wf(m, t) by {
        if t != slot {
            assert(mid.header().occupied(t));
            assert(before.header().occupied(t));
        }
    }
    assert forall|s: int, t: int|
        0 <= s < 32 && 0 <= t < 32 && s != t && after.header().occupied(s)
            && after.header().occupied(t) implies after.slot_key(m, s) != after.slot_key(m, t) by {
        if s != slot {
            assert(before.header().occupied(s));
            assert(after.slot_result(m, s) == before.slot_result(a, s));
        }
        if t != slot {
            assert(before.header().occupied(t));
            assert(after.slot_result(m, t) == before.slot_result(a, t));
        }
    }
    assert(after.base(m));
    assert forall|p: int| a.is_mapped(p) && p != before.id() && p != before.page_id()
        implies #[trigger] a.same_page(m, p) by {
        assert(a.same_page(mm, p));
        assert(mm.same_page(m, p));
    }
}

/// How far a pair moves the write frontier.
pub open spec fn round_up_int(key: Seq<u8>, value: Seq<u8>) -> int {
    crate::util::data_util::round_up((key.len() + value.len() + 16) as int)
}


impl Leaf {
    /// Writes a pair at the write frontier, on a new extension page where
    /// the current page has no room for it, enters it into the free slot
    /// `slot` and commits the header.
    #[verifier::rlimit(50)]
    fn store_pair(
        &mut self,
        leaf_manager: &mut LeafManager,
        slot: usize,
        key: &Vec<u8>,
        value: &Vec<u8>,
    ) -> (res: Result<(), StoreError>)
        requires
            old(self).base(old(leaf_manager)@),
            old(self).disk_ext_ok(old(leaf_manager)@),
            slot < 32,
            !old(self).header().occupied(slot as int),
            fits_page(4096, key@.len() as int, value@.len() as int),
            forall|t: int|
                0 <= t < 32 && old(self).header().occupied(t) ==> old(self).slot_key(
                    old(leaf_manager)@,
                    t,
                ) != key@,
        ensures
            final(leaf_manager)@.wf(),
            final(leaf_manager)@.grew_from(old(leaf_manager)@, 1),
            forall|p: int| old(leaf_manager)@.is_mapped(p) ==> final(leaf_manager)@.is_mapped(p),
            forall|p: int|
                old(leaf_manager)@.is_mapped(p) && p != old(self).id() && p != old(self).page_id()
                    ==> #[trigger] old(leaf_manager)@.same_page(final(leaf_manager)@, p),
            res is Ok ==> final(self).entered(
                *old(self),
                slot as int,
                key@,
                value@,
                old(leaf_manager)@.next_free(),
            ),
            match res {
                Ok(_) => final(self).pair_stored(
                    final(leaf_manager)@,
                    *old(self),
                    old(leaf_manager)@,
                    slot as int,
                    key@,
                    value@,
                ),
                Err(e) => {
                    &&& e == StoreError::NoSpace
                    &&& !old(leaf_manager)@.can_take()
                    &&& *final(self) == *old(self)
                    &&& final(leaf_manager)@ == old(leaf_manager)@
                },
            },
    {
        let ghost m0 = leaf_manager@;
        let ghost l0 = *self;
        let offset0: usize = self.header.get_tail_offset();
        let tail: usize = match leaf_manager.write_data(self.page_id, offset0, key, value) {
            Ok(Some(t)) => {
                proof {
                    let page = self.page_id as int;
                    lemma_write_frame(m0, page, offset0 as int, key@, value@);
                    lemma_read_after_write(m0, page, offset0 as int, key@, value@);
                    let mm = leaf_manager@;
                    assert forall|t: int| 0 <= t < 32 && self.header().occupied(t) implies self.slot_wf(
                        mm,
                        t,
                    ) && self.slot_result(mm, t) == l0.slot_result(m0, t) by {
                        let info = self.header().kv_info[t];
                        assert(l0.slot_wf(m0, t));
                        let p = info.page_id as int;
                        assert(m0.same_arena(mm, p, l0.limit(p)));
                        lemma_read_same_arena(
                            m0,
                            mm,
                            p,
                            l0.limit(p),
                            info.offset as int,
                            info.key_size as int,
                            info.value_size as int,
                        );
                    }
                    assert forall|s: int, t: int|
                        0 <= s < 32 && 0 <= t < 32 && s != t && self.header().occupied(s)
                            && self.header().occupied(t) implies self.slot_key(mm, s)
                        != self.slot_key(mm, t) by {
                        assert(self.slot_result(mm, s) == l0.slot_result(m0, s));
                        assert(self.slot_result(mm, t) == l0.slot_result(m0, t));
                        assert(l0.slot_key(m0, s) != l0.slot_key(m0, t));
                    }
                    assert(self.pair_written(mm, l0, m0, key@, value@));
                }
                t
            },
            Ok(None) => {
                match self.append_new_page(leaf_manager) {
                    Ok(_) => {},
                    Err(e) => {
                        return Err(e);
                    },
                }
                let ghost l1 = *self;
                let ghost m1 = leaf_manager@;
                match leaf_manager.write_data(self.page_id, INITIAL_TAIL_OFFSET, key, value) {
                    Ok(Some(t)) => {
                        proof {
                            let page = self.page_id as int;
                            lemma_ext_page_frame(m0, l0.page_id() as int, self.page_id);
                            lemma_write_frame(m1, page, 4096, key@, value@);
                            lemma_read_after_write(m1, page, 4096, key@, value@);
                            let mm = leaf_manager@;
                            assert forall|t: int|
                                0 <= t < 32 && self.header().occupied(t) implies self.slot_wf(
                                mm,
                                t,
                            ) && self.slot_result(mm, t) == l0.slot_result(m0, t) by {
                                let info = self.header().kv_info[t];
                                assert(l1.slot_wf(m1, t));
                                assert(l0.slot_wf(m0, t));
                                assert(l1.slot_result(m1, t) == l0.slot_result(m0, t));
                                let p = info.page_id as int;
                                assert(p != page);
                                assert(m1.same_arena(mm, p, 1048576));
                                lemma_read_same_arena(
                                    m1,
                                    mm,
                                    p,
                                    1048576,
                                    info.offset as int,
                                    info.key_size as int,
                                    info.value_size as int,
                                );
                            }
                            assert forall|s: int, t: int|
                                0 <= s < 32 && 0 <= t < 32 && s != t && self.header().occupied(s)
                                    && self.header().occupied(t) implies self.slot_key(mm, s)
                                != self.slot_key(mm, t) by {
                                assert(self.slot_result(mm, s) == l0.slot_result(m0, s));
                                assert(self.slot_result(mm, t) == l0.slot_result(m0, t));
                                assert(l0.slot_key(m0, s) != l0.slot_key(m0, t));
                            }
                            assert forall|p: int|
                                m0.is_mapped(p) && p != l0.id() && p != l0.page_id()
                                    implies #[trigger] m0.same_page(mm, p) by {
                                assert(m0.same_page(m1, p));
                                assert(m1.same_page(mm, p));
                            }
                            assert(self.pair_written(mm, l0, m0, key@, value@));
                        }
                        t
                    },
                    Ok(None) => {
                        proof {
                            assert(false);
                        }
                        return Err(StoreError::TooLarge);
                    },
                    Err(e) => {
                        proof {
                            assert(false);
                        }
                        return Err(e);
                    },
                }
            },
            Err(e) => {
                proof {
                    assert(false);
                }
                return Err(e);
            },
        };
        let ghost mid = *self;
        let ghost mm = leaf_manager@;
        self.update_header_for_write(slot, tail, key, value);
        self.commit(leaf_manager);
        proof {
            lemma_store_finish(l0, m0, mid, mm, *self, slot as int, key@, value@);
        }
        Ok(())
    }
}


/// What the sorted pairs of a leaf are: every entry is the pair of a taken
/// slot, every taken slot has its entry, no slot and no key occurs twice,
/// and the keys ascend strictly.
pub open spec fn sorted_listing(
    leaf: Leaf,
    m: LeafManagerView,
    sorted: Seq<(Vec<u8>, Vec<u8>, usize)>,
) -> bool {
    &&& forall|j: int|
        0 <= j < sorted.len() ==> {
            let entry = #[trigger] sorted[j];
            &&& entry.2 < 32
            &&& leaf.header().occupied(entry.2 as int)
            &&& leaf.slot_result(m, entry.2 as int) == Ok::<(Seq<u8>, Seq<u8>), StoreError>(
                (entry.0@, entry.1@),
            )
        }
    &&& forall|t: int|
        0 <= t < 32 && leaf.header().occupied(t) ==> exists|j: int|
            0 <= j < sorted.len() && (#[trigger] sorted[j]).2 == t
    &&& forall|i: int, j: int| 0 <= i < j < sorted.len() ==> sorted[i].2 != sorted[j].2
    &&& forall|i: int, j: int| 0 <= i < j < sorted.len() ==> key_lt(sorted[i].0@, sorted[j].0@)
}

/// Sorting the pairs of a leaf yields its sorted listing.
#[verifier::rlimit(50)]
pub proof fn lemma_sorted_listing(
    leaf: Leaf,
    m: LeafManagerView,
    pairs: Seq<(Vec<u8>, Vec<u8>, usize)>,
    sorted: Seq<(Vec<u8>, Vec<u8>, usize)>,
)
    requires
        leaf.lists(m, pairs, 32),
        sorted.to_multiset() == pairs.to_multiset(),
        sorted_entries(sorted),
        forall|s: int, t: int|
            0 <= s < 32 && 0 <= t < 32 && s != t && leaf.header().occupied(s)
                && leaf.header().occupied(t) ==> leaf.slot_key(m, s) != leaf.slot_key(m, t),
    ensures
        sorted_listing(leaf, m, sorted),
{
    broadcast use vstd::seq_lib::group_to_multiset_ensures;

    assert forall|j: int| 0 <= j < sorted.len() implies pairs.contains(#[trigger] sorted[j]) by {
        assert(sorted.contains(sorted[j]));
        assert(sorted.to_multiset().count(sorted[j]) > 0);
    }
    assert forall|j: int| 0 <= j < sorted.len() implies {
        let entry = #[trigger] sorted[j];
        &&& entry.2 < 32
        &&& leaf.header().occupied(entry.2 as int)
        &&& leaf.slot_result(m, entry.2 as int) == Ok::<(Seq<u8>, Seq<u8>), StoreError>(
            (entry.0@, entry.1@),
        )
    } by {
        assert(pairs.contains(sorted[j]));
        let i = choose|i: int| 0 <= i < pairs.len() && pairs[i] == sorted[j];
        assert(pairs[i].2 < 32);
    }
    assert forall|t: int| 0 <= t < 32 && leaf.header().occupied(t) implies exists|j: int|
        0 <= j < sorted.len() && (#[trigger] sorted[j]).2 == t by {
        let i = choose|i: int| 0 <= i < pairs.len() && (#[trigger] pairs[i]).2 == t;
        assert(pairs.contains(pairs[i]));
        assert(pairs.to_multiset().count(pairs[i]) > 0);
        assert(sorted.contains(pairs[i]));
        let j = choose|j: int| 0 <= j < sorted.len() && sorted[j] == pairs[i];
        assert(sorted[j].2 == t);
    }
    assert(pairs.no_duplicates()) by {
        assert forall|i: int, j: int| 0 <= i < pairs.len() && 0 <= j < pairs.len() && i != j
            implies pairs[i] != pairs[j] by {
            if i < j {
                assert(pairs[i].2 < pairs[j].2);
            } else {
                assert(pairs[j].2 < pairs[i].2);
            }
        }
    }
    pairs.lemma_multiset_has_no_duplicates();
    sorted.lemma_multiset_has_no_duplicates_conv();
    assert forall|i: int, j: int| 0 <= i < j < sorted.len() implies sorted[i].2 != sorted[j].2
        && key_lt(sorted[i].0@, sorted[j].0@) by {
        assert(sorted[i] != sorted[j]);
        assert(pairs.contains(sorted[i]));
        assert(pairs.contains(sorted[j]));
        let a = choose|a: int| 0 <= a < pairs.len() && pairs[a] == sorted[i];
        let b = choose|b: int| 0 <= b < pairs.len() && pairs[b] == sorted[j];
        assert(a != b);
        if a < b {
            assert(pairs[a].2 < pairs[b].2);
        } else {
            assert(pairs[b].2 < pairs[a].2);
        }
        assert(leaf.slot_key(m, sorted[i].2 as int) == sorted[i].0@);
        assert(leaf.slot_key(m, sorted[j].2 as int) == sorted[j].0@);
        assert(sorted[i].0@ != sorted[j].0@);
        lemma_entry_lt_total(sorted[i], sorted[j]);
        lemma_key_lt_total(sorted[i].0@, sorted[j].0@);
    }
}

/// A leaf that gave up some of its pairs, or got another sibling, is sound
/// once its header is committed, and has the pairs it kept.
#[verifier::rlimit(50)]
proof fn lemma_commit_wf(before: Leaf, m: LeafManagerView, after: Leaf)
    requires
        before.base(m),
        after.id() == before.id(),
        after.page_id() == before.page_id(),
        after.header().magic == before.header().magic,
        after.header().ext == before.header().ext,
        after.header().tail_offset == before.header().tail_offset,
        after.header().fingerprints == before.header().fingerprints,
        after.header().kv_info == before.header().kv_info,
        forall|t: int|
            0 <= t < 32 && after.header().occupied(t) ==> before.header().occupied(t),
    ensures
        after.wf(m.with_header(after.id() as int, after.header())),
        m.with_header(after.id() as int, after.header()).wf(),
        forall|t: int|
            0 <= t < 32 && before.header().occupied(t) ==> after.slot_result(
                m.with_header(after.id() as int, after.header()),
                t,
            ) == before.slot_result(m, t),
        forall|p: int| m.is_mapped(p) ==> m.with_header(after.id() as int, after.header()).is_mapped(p),
        forall|p: int|
            m.is_mapped(p) && p != after.id() ==> #[trigger] m.same_page(
                m.with_header(after.id() as int, after.header()),
                p,
            ),
{
    let id = after.id() as int;
    let w = m.with_header(id, after.header());
    lemma_header_after_commit(m, id, after.header());
    lemma_commit_frame(m, id, after.header());
    if before.page_id() != before.id() {
        assert(m.same_page(w, before.page_id() as int));
        lemma_same_page(m, w, before.page_id() as int);
    }
    assert forall|t: int| 0 <= t < 32 && before.header().occupied(t) implies after.slot_result(w, t)
        == before.slot_result(m, t) && (after.header().occupied(t) ==> after.slot_wf(w, t)) by {
        let info = before.header().kv_info[t];
        assert(before.slot_wf(m, t));
        assert(m.same_arena(w, info.page_id as int, 1048576));
        lemma_read_same_arena(
            m,
            w,
            info.page_id as int,
            1048576,
            info.offset as int,
            info.key_size as int,
            info.value_size as int,
        );
    }
    assert forall|s: int, t: int|
        0 <= s < 32 && 0 <= t < 32 && s != t && after.header().occupied(s)
            && after.header().occupied(t) implies after.slot_key(w, s) != after.slot_key(w, t) by {
        assert(after.slot_result(w, s) == before.slot_result(m, s));
        assert(after.slot_result(w, t) == before.slot_result(m, t));
        assert(before.slot_key(m, s) != before.slot_key(m, t));
    }
}

/// A leaf whose pages kept their bytes is as far sound as before, whether
/// or not its header is committed.
#[verifier::rlimit(50)]
pub proof fn lemma_base_preserved(leaf: Leaf, a: LeafManagerView, b: LeafManagerView)
    requires
        leaf.base(a),
        b.wf(),
        forall|p: int| leaf.owns(p) ==> b.is_mapped(p) && a.same_page(b, p),
    ensures
        leaf.base(b),
        leaf.disk_ext_ok(a) ==> leaf.disk_ext_ok(b),
        a.holds_header(leaf.id() as int, leaf.header()) ==> b.holds_header(
            leaf.id() as int,
            leaf.header(),
        ),
        a.recoverable(leaf.id() as int) ==> b.recoverable(leaf.id() as int),
        forall|s: int|
            0 <= s < 32 && leaf.header().occupied(s) ==> leaf.slot_result(b, s)
                == leaf.slot_result(a, s),
{
    assert(leaf.owns(leaf.id() as int));
    assert(leaf.owns(leaf.page_id() as int));
    lemma_same_page(a, b, leaf.id() as int);
    lemma_same_page(a, b, leaf.page_id() as int);
    assert forall|s: int| 0 <= s < 32 && leaf.header().occupied(s) implies leaf.slot_result(b, s)
        == leaf.slot_result(a, s) && leaf.slot_wf(b, s) by {
        let info = leaf.header().kv_info[s];
        assert(leaf.slot_wf(a, s));
        assert(leaf.owns(info.page_id as int));
        lemma_same_page(a, b, info.page_id as int);
        lemma_read_same_arena(
            a,
            b,
            info.page_id as int,
            1048576,
            info.offset as int,
            info.key_size as int,
            info.value_size as int,
        );
    }
    assert forall|s: int, t: int|
        0 <= s < 32 && 0 <= t < 32 && s != t && leaf.header().occupied(s)
            && leaf.header().occupied(t) implies leaf.slot_key(b, s) != leaf.slot_key(b, t) by {
        assert(leaf.slot_result(b, s) == leaf.slot_result(a, s));
        assert(leaf.slot_result(b, t) == leaf.slot_result(a, t));
        assert(leaf.slot_key(a, s) != leaf.slot_key(a, t));
    }
}


impl Leaf {
    /// What a split leaves behind: two sound leaves, the new one on pages
    /// of its own, that share the pairs of the leaf as it was: the keys
    /// below the split key stay, the others move.
    pub open spec fn split_from(
        &self,
        m: LeafManagerView,
        sibling: Leaf,
        split_key: Seq<u8>,
        before: Leaf,
        a: LeafManagerView,
    ) -> bool {
        &&& self.wf(m)
        &&& sibling.wf(m)
        &&& self.id() == before.id()
        &&& self.page_id() == before.page_id()
        &&& self.root_flag() == before.root_flag()
        &&& self.header().kv_info == before.header().kv_info
        &&& forall|t: int| 0 <= t < 32 && self.header().occupied(t) ==> before.header().occupied(t)
        &&& !sibling.root_flag()
        &&& forall|p: int| sibling.owns(p) ==> !a.is_mapped(p)
        &&& sibling.header().next == before.header().next
        &&& self.header().next == sibling.id()
        &&& !self.header().full()
        &&& !sibling.header().full()
        &&& sibling.lookup(m, split_key) is Some
        &&& before.header().full() ==> exists|key: Seq<u8>| self.lookup(m, key) is Some
        &&& forall|key: Seq<u8>|
            before.lookup(a, key) == (if key_lt(key, split_key) {
                self.lookup(m, key)
            } else {
                sibling.lookup(m, key)
            })
        &&& forall|key: Seq<u8>| self.lookup(m, key) is Some ==> key_lt(key, split_key)
        &&& forall|key: Seq<u8>| sibling.lookup(m, key) is Some ==> !key_lt(key, split_key)
    }
}

impl Leaf {
    /// Where a split cut the leaf: in the middle of `sorted`, the sorted
    /// listing of the leaf as it was. The split key is the key in the
    /// middle; the entries before the middle keep their slots here and
    /// read as before, and the others lie in the first slots of the
    /// sibling, in order.
    pub open spec fn halved(
        &self,
        m: LeafManagerView,
        sibling: Leaf,
        split_key: Seq<u8>,
        before: Leaf,
        a: LeafManagerView,
        sorted: Seq<(Vec<u8>, Vec<u8>, usize)>,
    ) -> bool {
        let mid = sorted.len() as int / 2;
        &&& sorted_listing(before, a, sorted)
        &&& sorted.len() > 0
        &&& split_key == sorted[mid].0@
        &&& forall|t: int|
            0 <= t < 32 ==> self.header().occupied(t) == exists|j: int|
                0 <= j < mid && (#[trigger] sorted[j]).2 == t
        &&& forall|t: int|
            0 <= t < 32 && self.header().occupied(t) ==> #[trigger] self.slot_result(m, t)
                == before.slot_result(a, t)
        &&& forall|u: int| 0 <= u < 32 ==> sibling.header().occupied(u) == (u < sorted.len() - mid)
        &&& forall|u: int|
            0 <= u < sorted.len() - mid ==> sibling.slot_result(m, u) == Ok::<
                (Seq<u8>, Seq<u8>),
                StoreError,
            >(((#[trigger] sorted[mid + u]).0@, sorted[mid + u].1@))
    }

    /// The split cut the leaf in the middle of its sorted listing.
    pub open spec fn cut_in_half(
        &self,
        m: LeafManagerView,
        sibling: Leaf,
        split_key: Seq<u8>,
        before: Leaf,
        a: LeafManagerView,
    ) -> bool {
        exists|sorted: Seq<(Vec<u8>, Vec<u8>, usize)>|
            self.halved(m, sibling, split_key, before, a, sorted)
    }
}

/// How the pairs of a leaf are shared out by a split at `mid` of its
/// sorted listing.
#[verifier::rlimit(50)]
proof fn lemma_split_lookup(
    before: Leaf,
    a: LeafManagerView,
    left: Leaf,
    right: Leaf,
    m: LeafManagerView,
    sorted: Seq<(Vec<u8>, Vec<u8>, usize)>,
    mid: int,
)
    requires
        sorted_listing(before, a, sorted),
        0 <= mid < sorted.len(),
        sorted.len() - mid <= 32,
        left.wf(m),
        right.wf(m),
        forall|s: int, t: int|
            0 <= s < 32 && 0 <= t < 32 && s != t && before.header().occupied(s)
                && before.header().occupied(t) ==> before.slot_key(a, s) != before.slot_key(a, t),
        forall|t: int|
            0 <= t < 32 ==> left.header().occupied(t) == (before.header().occupied(t) && !exists|
                j: int,
            |
                mid <= j < sorted.len() && (#[trigger] sorted[j]).2 == t),
        forall|t: int|
            0 <= t < 32 && before.header().occupied(t) ==> left.slot_result(m, t)
                == before.slot_result(a, t),
        forall|u: int| 0 <= u < 32 ==> right.header().occupied(u) == (u < sorted.len() - mid),
        forall|u: int|
            0 <= u < sorted.len() - mid ==> right.slot_result(m, u) == Ok::<
                (Seq<u8>, Seq<u8>),
                StoreError,
            >(((#[trigger] sorted[mid + u]).0@, sorted[mid + u].1@)),
    ensures
        right.lookup(m, sorted[mid].0@) is Some,
        forall|key: Seq<u8>|
            before.lookup(a, key) == (if key_lt(key, sorted[mid].0@) {
                left.lookup(m, key)
            } else {
                right.lookup(m, key)
            }),
        forall|key: Seq<u8>| left.lookup(m, key) is Some ==> key_lt(key, sorted[mid].0@),
        forall|key: Seq<u8>| right.lookup(m, key) is Some ==> !key_lt(key, sorted[mid].0@),
{
    let split_key = sorted[mid].0@;
    assert(right.holds(m, 0, split_key)) by {
        assert(sorted[mid + 0].0@ == split_key);
    }
    lemma_lookup_unique(right, m, 0, split_key);
    assert forall|key: Seq<u8>|
        before.lookup(a, key) == (if key_lt(key, split_key) {
            left.lookup(m, key)
        } else {
            right.lookup(m, key)
        }) && (left.lookup(m, key) is Some ==> key_lt(key, split_key)) && (right.lookup(m, key)
            is Some ==> !key_lt(key, split_key)) by {
        if exists|t: int| before.holds(a, t, key) {
            let t = choose|t: int| before.holds(a, t, key);
            assert forall|t2: int| before.holds(a, t2, key) implies t2 == t by {}
            lemma_lookup_is(before, a, t, key);
            let j = choose|j: int| 0 <= j < sorted.len() && (#[trigger] sorted[j]).2 == t;
            assert(sorted[j].0@ == key);
            if j < mid {
                assert(key_lt(key, split_key));
                assert(left.header().occupied(t)) by {
                    if exists|j2: int| mid <= j2 < sorted.len() && (#[trigger] sorted[j2]).2 == t {
                        let j2 = choose|j2: int|
                            mid <= j2 < sorted.len() && (#[trigger] sorted[j2]).2 == t;
                        assert(sorted[j].2 != sorted[j2].2);
                    }
                }
                assert(left.holds(m, t, key));
                lemma_lookup_unique(left, m, t, key);
                // the sibling does not hold the key
                assert forall|u: int| !right.holds(m, u, key) by {
                    if right.holds(m, u, key) {
                        assert(sorted[mid + u].0@ == key);
                        assert(key_lt(sorted[j].0@, sorted[mid + u].0@));
                        lemma_key_lt_total(key, key);
                    }
                }
            } else {
                let u = j - mid;
                assert(sorted[mid + u] == sorted[j]);
                assert(right.holds(m, u, key));
                lemma_lookup_unique(right, m, u, key);
                lemma_key_lt_total(key, split_key);
                if j > mid {
                    assert(key_lt(sorted[mid].0@, sorted[j].0@));
                }
                assert(!key_lt(key, split_key));
                assert forall|t2: int| !left.holds(m, t2, key) by {
                    if left.holds(m, t2, key) {
                        assert(before.header().occupied(t2));
                        assert(before.holds(a, t2, key));
                        assert(t2 == t);
                        assert(sorted[j].2 == t);
                    }
                }
            }
        } else {
            assert forall|t: int| !left.holds(m, t, key) by {
                if left.holds(m, t, key) {
                    assert(before.holds(a, t, key));
                }
            }
            assert forall|u: int| !right.holds(m, u, key) by {
                if right.holds(m, u, key) {
                    let entry = sorted[mid + u];
                    assert(entry.0@ == key);
                    assert(before.holds(a, entry.2 as int, key));
                }
            }
        }
    }
}



impl Leaf {
    /// The state of a split after the entries of `sorted` from `mid` up to
    /// `done` moved from `before` to `sibling`: the old pages are as they
    /// were under `a`, the sibling holds the moved pairs in slot order on
    /// pages of its own, and this leaf has given up their slots.
    pub open spec fn moving(
        &self,
        m: LeafManagerView,
        sibling: Leaf,
        before: Leaf,
        a: LeafManagerView,
        sorted: Seq<(Vec<u8>, Vec<u8>, usize)>,
        mid: int,
        done: int,
    ) -> bool {
        &&& 0 <= mid <= done <= sorted.len() <= 32
        &&& sorted.len() - mid <= 16
        &&& sorted_listing(before, a, sorted)
        &&& before.base(a)
        &&& m.wf()
        &&& forall|p: int| a.is_mapped(p) ==> m.is_mapped(p)
        &&& forall|p: int| a.is_mapped(p) ==> #[trigger] a.same_page(m, p)
        &&& sibling.wf(m)
        &&& !sibling.root_flag()
        &&& forall|p: int| sibling.owns(p) ==> !a.is_mapped(p)
        &&& sibling.header().next == INVALID_LEAF_ID
        &&& forall|u: int| 0 <= u < 32 ==> sibling.header().occupied(u) == (u < done - mid)
        &&& forall|u: int|
            0 <= u < done - mid ==> sibling.slot_result(m, u) == Ok::<
                (Seq<u8>, Seq<u8>),
                StoreError,
            >(((#[trigger] sorted[mid + u]).0@, sorted[mid + u].1@))
        &&& self.id() == before.id()
        &&& self.page_id() == before.page_id()
        &&& self.root_flag() == before.root_flag()
        &&& self.header().same_but_bitmap(before.header())
        &&& forall|t: int|
            0 <= t < 32 ==> self.header().occupied(t) == (before.header().occupied(t) && !exists|
                j: int,
            |
                mid <= j < done && (#[trigger] sorted[j]).2 == t)
    }
}

/// The pages of a sound leaf are in use.
pub proof fn lemma_leaf_owned_mapped(leaf: Leaf, m: LeafManagerView, p: int)
    requires
        leaf.wf(m),
        leaf.owns(p),
    ensures
        m.is_mapped(p),
{
    lemma_owned_mapped(leaf, m, p);
}

/// The pages of a leaf are in use.
proof fn lemma_owned_mapped(leaf: Leaf, m: LeafManagerView, p: int)
    requires
        leaf.base(m),
        leaf.owns(p),
    ensures
        m.is_mapped(p),
{
    if p != leaf.id() && p != leaf.page_id() {
        let t = choose|t: int|
            0 <= t < 32 && leaf.header().occupied(t) && (#[trigger] leaf.header().kv_info[t]).page_id
                == p;
        assert(leaf.slot_wf(m, t));
    }
}

/// One more entry has moved.
#[verifier::rlimit(50)]
proof fn lemma_moved_one(
    left: Leaf,
    left2: Leaf,
    m1: LeafManagerView,
    m2: LeafManagerView,
    n1: Leaf,
    n2: Leaf,
    before: Leaf,
    a: LeafManagerView,
    sorted: Seq<(Vec<u8>, Vec<u8>, usize)>,
    mid: int,
    i: int,
)
    requires
        left.moving(m1, n1, before, a, sorted, mid, i),
        i < sorted.len(),
        m2.wf(),
        forall|p: int| m1.is_mapped(p) ==> m2.is_mapped(p),
        forall|p: int|
            m1.is_mapped(p) && p != n1.id() && p != n1.page_id() ==> #[trigger] m1.same_page(m2, p),
        n2.pair_stored(m2, n1, m1, i - mid, sorted[i].0@, sorted[i].1@),
        left2.id() == left.id(),
        left2.page_id() == left.page_id(),
        left2.root_flag() == left.root_flag(),
        left2.header().same_but_bitmap(left.header()),
        forall|t: int|
            0 <= t < 32 ==> left2.header().occupied(t) == (t != sorted[i].2
                && left.header().occupied(t)),
    ensures
        left2.moving(m2, n2, before, a, sorted, mid, i + 1),
{
    assert(n1.owns(n1.id() as int));
    assert(n1.owns(n1.page_id() as int));
    assert forall|p: int| a.is_mapped(p) implies m2.is_mapped(p) && #[trigger] a.same_page(
        m2,
        p,
    ) by {
        assert(a.same_page(m1, p));
        assert(m1.same_page(m2, p));
    }
    assert forall|p: int| n2.owns(p) implies !a.is_mapped(p) by {
        if p == n2.id() {
        } else if p == n2.page_id() {
        } else {
            let u = choose|u: int|
                0 <= u < 32 && n2.header().occupied(u) && (#[trigger] n2.header().kv_info[u]).page_id
                    == p;
            if u != i - mid {
                assert(n1.header().occupied(u));
                assert(n1.header().kv_info[u].page_id == p);
                assert(n1.owns(p));
            }
        }
    }
    assert forall|u: int| 0 <= u < i + 1 - mid implies n2.slot_result(m2, u) == Ok::<
        (Seq<u8>, Seq<u8>),
        StoreError,
    >(((#[trigger] sorted[mid + u]).0@, sorted[mid + u].1@)) by {
        if u < i - mid {
            assert(n1.header().occupied(u));
            assert(n2.slot_result(m2, u) == n1.slot_result(m1, u));
        }
    }
    assert forall|t: int| 0 <= t < 32 implies left2.header().occupied(t) == (
    before.header().occupied(t) && !exists|j: int|
        mid <= j < i + 1 && (#[trigger] sorted[j]).2 == t) by {
        if t == sorted[i].2 {
            assert(mid <= i < i + 1 && sorted[i].2 == t);
        } else {
            if exists|j: int| mid <= j < i + 1 && (#[trigger] sorted[j]).2 == t {
                let j = choose|j: int| mid <= j < i + 1 && (#[trigger] sorted[j]).2 == t;
                assert(j != i);
                assert(mid <= j < i && sorted[j].2 == t);
            }
        }
    }
}

/// After the headers of both leaves were committed, the split is done.
#[verifier::rlimit(50)]
proof fn lemma_split_done(
    l3: Leaf,
    left: Leaf,
    n3: Leaf,
    right: Leaf,
    m3: LeafManagerView,
    before: Leaf,
    a: LeafManagerView,
    sorted: Seq<(Vec<u8>, Vec<u8>, usize)>,
    mid: int,
)
    requires
        l3.moving(m3, n3, before, a, sorted, mid, sorted.len() as int),
        mid < sorted.len(),
        mid == sorted.len() / 2,
        left.id() == l3.id(),
        left.page_id() == l3.page_id(),
        left.root_flag() == l3.root_flag(),
        left.header() == (LeafHeader { next: n3.id() as u32, ..l3.header() }),
        right.id() == n3.id(),
        right.page_id() == n3.page_id(),
        right.root_flag() == n3.root_flag(),
        right.header() == (LeafHeader { next: before.header().next, ..n3.header() }),
    ensures
        ({
            let m4 = m3.with_header(right.id() as int, right.header());
            let m5 = m4.with_header(left.id() as int, left.header());
            &&& m4.wf()
            &&& m4.is_mapped(left.id() as int)
            &&& m5.wf()
            &&& left.split_from(m5, right, sorted[mid].0@, before, a)
            &&& left.halved(m5, right, sorted[mid].0@, before, a, sorted)
            &&& forall|p: int| a.is_mapped(p) ==> m5.is_mapped(p)
            &&& forall|p: int| a.is_mapped(p) && p != before.id() ==> #[trigger] a.same_page(m5, p)
        }),
{
    let m4 = m3.with_header(right.id() as int, right.header());
    let m5 = m4.with_header(left.id() as int, left.header());
    assert forall|u: int| 0 <= u < 32 implies right.header().occupied(u) == n3.header().occupied(
        u,
    ) by {}
    assert forall|t: int| 0 <= t < 32 implies left.header().occupied(t) == l3.header().occupied(
        t,
    ) by {}
    assert(n3.owns(n3.id() as int));
    assert(before.owns(before.id() as int));
    lemma_commit_wf(n3, m3, right);
    assert forall|p: int| before.owns(p) implies m4.is_mapped(p) && a.same_page(m4, p) by {
        lemma_owned_mapped(before, a, p);
        assert(a.same_page(m3, p));
        assert(m3.same_page(m4, p));
    }
    lemma_base_preserved(before, a, m4);
    lemma_commit_wf(before, m4, left);
    assert forall|p: int| right.owns(p) implies n3.owns(p) by {
        if p != right.id() && p != right.page_id() {
            let u = choose|u: int|
                0 <= u < 32 && right.header().occupied(u)
                    && (#[trigger] right.header().kv_info[u]).page_id == p;
            assert(n3.header().occupied(u));
            assert(n3.header().kv_info[u].page_id == p);
        }
    }
    assert forall|p: int| right.owns(p) implies m5.is_mapped(p) && m4.same_page(m5, p) by {
        assert(n3.owns(p));
        lemma_owned_mapped(n3, m3, p);
        assert(!a.is_mapped(p));
    }
    lemma_leaf_preserved(right, m4, m5);
    assert forall|p: int| a.is_mapped(p) && p != before.id() implies #[trigger] a.same_page(
        m5,
        p,
    ) by {
        assert(a.same_page(m3, p));
        assert(m3.same_page(m4, p));
        assert(m4.same_page(m5, p));
    }
    assert forall|t: int| 0 <= t < 32 && before.header().occupied(t) implies left.slot_result(
        m5,
        t,
    ) == before.slot_result(a, t) by {
        assert(before.slot_result(m4, t) == before.slot_result(a, t));
    }
    assert forall|u: int| 0 <= u < sorted.len() - mid implies right.slot_result(m5, u) == Ok::<
        (Seq<u8>, Seq<u8>),
        StoreError,
    >(((#[trigger] sorted[mid + u]).0@, sorted[mid + u].1@)) by {
        assert(n3.header().occupied(u));
        assert(right.header().occupied(u));
        assert(right.slot_result(m4, u) == n3.slot_result(m3, u));
        assert(right.slot_result(m5, u) == right.slot_result(m4, u));
    }
    assert forall|t: int| 0 <= t < 32 implies left.header().occupied(t) == exists|j: int|
        0 <= j < mid && (#[trigger] sorted[j]).2 == t by {
        if before.header().occupied(t) {
            let j = choose|j: int| 0 <= j < sorted.len() && (#[trigger] sorted[j]).2 == t;
            if j < mid {
                assert forall|i: int| mid <= i < sorted.len() implies (#[trigger] sorted[i]).2
                    != t by {
                    assert(sorted[j].2 != sorted[i].2);
                }
            }
        } else {
            assert forall|j: int| 0 <= j < mid implies (#[trigger] sorted[j]).2 != t by {
                assert(before.header().occupied(sorted[j].2 as int));
            }
        }
    }
    lemma_split_lookup(before, a, left, right, m5, sorted, mid);
    assert(!left.header().occupied(sorted[mid].2 as int));
    assert(!right.header().occupied(31));
    if before.header().full() {
        lemma_left_nonempty(before, a, left, m5, sorted, mid);
    }
}

/// The half of a full leaf that stays is not empty.
proof fn lemma_left_nonempty(
    before: Leaf,
    a: LeafManagerView,
    left: Leaf,
    m: LeafManagerView,
    sorted: Seq<(Vec<u8>, Vec<u8>, usize)>,
    mid: int,
)
    requires
        sorted_listing(before, a, sorted),
        before.header().full(),
        mid == sorted.len() / 2,
        left.wf(m),
        forall|t: int|
            0 <= t < 32 ==> left.header().occupied(t) == (before.header().occupied(t) && !exists|
                j: int,
            |
                mid <= j < sorted.len() && (#[trigger] sorted[j]).2 == t),
        forall|t: int|
            0 <= t < 32 && before.header().occupied(t) ==> left.slot_result(m, t)
                == before.slot_result(a, t),
    ensures
        exists|key: Seq<u8>| left.lookup(m, key) is Some,
{
    assert(before.header().occupied(0));
    assert(before.header().occupied(1));
    let j0 = choose|j: int| 0 <= j < sorted.len() && (#[trigger] sorted[j]).2 == 0;
    let j1 = choose|j: int| 0 <= j < sorted.len() && (#[trigger] sorted[j]).2 == 1;
    assert(j0 != j1);
    assert(sorted.len() >= 2);
    assert(mid >= 1);
    let first = sorted[0];
    let t = first.2 as int;
    assert(before.header().occupied(t));
    assert(left.header().occupied(t)) by {
        if exists|j2: int| mid <= j2 < sorted.len() && (#[trigger] sorted[j2]).2 == t {
            let j2 = choose|j2: int| mid <= j2 < sorted.len() && (#[trigger] sorted[j2]).2 == t;
            assert(sorted[0].2 != sorted[j2].2);
        }
    }
    assert(left.slot_result(m, t) == before.slot_result(a, t));
    assert(left.holds(m, t, first.0@));
    lemma_lookup_unique(left, m, t, first.0@);
    assert(left.lookup(m, first.0@) is Some);
}

impl Leaf {
    /// Moves the entries of `sorted` from `new_first` on to `new_leaf` and
    /// clears their slots.
    #[verifier::rlimit(50)]
    fn move_upper_half(
        &mut self,
        leaf_manager: &mut LeafManager,
        new_leaf: &mut Leaf,
        sorted: &Vec<(Vec<u8>, Vec<u8>, usize)>,
        new_first: usize,
        saved: LeafHeader,
        Ghost(before): Ghost<Leaf>,
        Ghost(a): Ghost<LeafManagerView>,
    ) -> (res: Result<(), StoreError>)
        requires
            old(self).moving(
                old(leaf_manager)@,
                *old(new_leaf),
                before,
                a,
                sorted@,
                new_first as int,
                new_first as int,
            ),
            saved == before.header(),
        ensures
            final(leaf_manager)@.wf(),
            final(leaf_manager)@.grew_from(old(leaf_manager)@, 16),
            forall|p: int| a.is_mapped(p) ==> final(leaf_manager)@.is_mapped(p),
            forall|p: int| a.is_mapped(p) ==> #[trigger] a.same_page(final(leaf_manager)@, p),
            match res {
                Ok(_) => final(self).moving(
                    final(leaf_manager)@,
                    *final(new_leaf),
                    before,
                    a,
                    sorted@,
                    new_first as int,
                    sorted@.len() as int,
                ),
                Err(e) => {
                    &&& e == StoreError::NoSpace
                    &&& !old(leaf_manager)@.room(16)
                    &&& *final(self) == before
                },
            },
    {
        let count: usize = sorted.len();
        let mut i: usize = new_first;
        while i < count
            invariant
                new_first <= i <= count,
                count == sorted@.len(),
                saved == before.header(),
                self.moving(leaf_manager@, *new_leaf, before, a, sorted@, new_first as int, i as int),
                leaf_manager@.grew_from(old(leaf_manager)@, i - new_first),
            decreases count - i,
        {
            let ghost m1 = leaf_manager@;
            let ghost n1 = *new_leaf;
            let ghost l1 = *self;
            let entry: &(Vec<u8>, Vec<u8>, usize) = &sorted[i];
            let free: usize = match new_leaf.header.get_empty_slot() {
                Some(slot) => slot,
                None => {
                    proof {
                        assert(new_leaf.header().occupied(31));
                        assert(false);
                    }
                    self.header = saved;
                    return Err(StoreError::NoSpace);
                },
            };
            proof {
                assert(free == i - new_first) by {
                    if free < i - new_first {
                        assert(new_leaf.header().occupied(free as int));
                    }
                    if free > i - new_first {
                        assert(new_leaf.header().occupied(i - new_first));
                    }
                }
                lemma_wf_disk_ext(*new_leaf, m1);
                let slot = entry.2 as int;
                assert(before.slot_wf(a, slot));
                assert(before.slot_result(a, slot) == Ok::<(Seq<u8>, Seq<u8>), StoreError>(
                    (entry.0@, entry.1@),
                ));
                assert forall|u: int| 0 <= u < 32 && new_leaf.header().occupied(u)
                    implies new_leaf.slot_key(m1, u) != entry.0@ by {
                    assert(key_lt(sorted@[new_first + u].0@, sorted@[i as int].0@));
                    lemma_key_lt_total(entry.0@, entry.0@);
                }
            }
            match new_leaf.store_pair(leaf_manager, free, &entry.0, &entry.1) {
                Ok(_) => {},
                Err(e) => {
                    self.header = saved;
                    return Err(e);
                },
            }
            self.header.unset_slot(entry.2);
            proof {
                lemma_moved_one(
                    l1,
                    *self,
                    m1,
                    leaf_manager@,
                    n1,
                    *new_leaf,
                    before,
                    a,
                    sorted@,
                    new_first as int,
                    i as int,
                );
            }
            i = i + 1;
        }
        Ok(())
    }

    /// Puts `new_leaf` behind this leaf in the sibling chain and commits
    /// both headers.
    #[verifier::rlimit(50)]
    fn link_sibling(
        &mut self,
        leaf_manager: &mut LeafManager,
        new_leaf: &mut Leaf,
        Ghost(before): Ghost<Leaf>,
        Ghost(a): Ghost<LeafManagerView>,
        Ghost(sorted): Ghost<Seq<(Vec<u8>, Vec<u8>, usize)>>,
        Ghost(mid): Ghost<int>,
    )
        requires
            old(self).moving(
                old(leaf_manager)@,
                *old(new_leaf),
                before,
                a,
                sorted,
                mid,
                sorted.len() as int,
            ),
            mid < sorted.len(),
            mid == sorted.len() / 2,
        ensures
            final(leaf_manager)@.wf(),
            final(leaf_manager)@.grew_from(old(leaf_manager)@, 0),
            final(self).split_from(
                final(leaf_manager)@,
                *final(new_leaf),
                sorted[mid].0@,
                before,
                a,
            ),
            final(self).halved(
                final(leaf_manager)@,
                *final(new_leaf),
                sorted[mid].0@,
                before,
                a,
                sorted,
            ),
            forall|p: int| a.is_mapped(p) ==> final(leaf_manager)@.is_mapped(p),
            forall|p: int|
                a.is_mapped(p) && p != before.id() ==> #[trigger] a.same_page(
                    final(leaf_manager)@,
                    p,
                ),
    {
        let ghost l3 = *self;
        let ghost n3 = *new_leaf;
        let ghost m3 = leaf_manager@;
        match self.header.get_next() {
            Some(next) => {
                new_leaf.header.set_next(next);
            },
            None => {},
        }
        self.header.set_next(new_leaf.id);
        proof {
            assert(n3.owns(n3.id() as int));
            lemma_owned_mapped(n3, m3, n3.id() as int);
            lemma_split_done(l3, *self, n3, *new_leaf, m3, before, a, sorted, mid);
        }
        new_leaf.commit(leaf_manager);
        self.commit(leaf_manager);
    }

    /// Moves the upper half of the pairs, in key order, to a new leaf and
    /// puts that leaf behind this one in the sibling chain. Both headers are
    /// committed. Returns the lowest key that moved, with the new leaf: of
    /// `count` pairs the `count / 2` with the lowest keys stay.
    #[verifier::rlimit(50)]
    pub fn split(&mut self, leaf_manager: &mut LeafManager) -> (res: Result<
        (Vec<u8>, Leaf),
        StoreError,
    >)
        requires
            old(self).base(old(leaf_manager)@),
            old(self).disk_ext_ok(old(leaf_manager)@),
            exists|t: int| 0 <= t < 32 && old(self).header().occupied(t),
        ensures
            final(leaf_manager)@.wf(),
            final(leaf_manager)@.grew_from(old(leaf_manager)@, 17),
            forall|p: int| old(leaf_manager)@.is_mapped(p) ==> final(leaf_manager)@.is_mapped(p),
            forall|p: int|
                old(leaf_manager)@.is_mapped(p) && p != old(self).id() ==> #[trigger] old(
                    leaf_manager,
                )@.same_page(final(leaf_manager)@, p),
            res matches Ok((split_key, sibling)) ==> final(self).cut_in_half(
                final(leaf_manager)@,
                sibling,
                split_key@,
                *old(self),
                old(leaf_manager)@,
            ),
            match res {
                Ok((split_key, sibling)) => final(self).split_from(
                    final(leaf_manager)@,
                    sibling,
                    split_key@,
                    *old(self),
                    old(leaf_manager)@,
                ),
                Err(e) => {
                    &&& e == StoreError::NoSpace
                    &&& !old(leaf_manager)@.room(17)
                    &&& *final(self) == *old(self)
                    &&& old(leaf_manager)@.same_page(final(leaf_manager)@, old(self).id() as int)
                },
            },
    {
        let ghost l0 = *self;
        let ghost m0 = leaf_manager@;
        let saved: LeafHeader = self.header;
        let mut new_leaf: Leaf = match Leaf::new(leaf_manager) {
            Ok(leaf) => leaf,
            Err(e) => {
                proof {
                    assert(m0.same_page(m0, l0.id() as int));
                }
                return Err(e);
            },
        };
        proof {
            lemma_base_preserved(l0, m0, leaf_manager@);
        }
        let kv_pairs: Vec<(Vec<u8>, Vec<u8>, usize)> = match self.get_kv_pairs(leaf_manager) {
            Ok(pairs) => pairs,
            Err(e) => {
                proof {
                    assert(false);
                }
                return Err(e);
            },
        };
        let ghost listed = kv_pairs@;
        let sorted: Vec<(Vec<u8>, Vec<u8>, usize)> = sort_entries(kv_pairs);
        let count: usize = sorted.len();
        let new_first: usize = count / 2;
        proof {
            lemma_sorted_listing(l0, leaf_manager@, listed, sorted@);
            assert forall|j: int| 0 <= j < sorted@.len() implies l0.slot_result(
                m0,
                (#[trigger] sorted@[j]).2 as int,
            ) == Ok::<(Seq<u8>, Seq<u8>), StoreError>((sorted@[j].0@, sorted@[j].1@)) by {}
            assert(sorted_listing(l0, m0, sorted@));
            let t = choose|t: int| 0 <= t < 32 && l0.header().occupied(t);
            let j = choose|j: int| 0 <= j < sorted@.len() && (#[trigger] sorted@[j]).2 == t;
            lemma_fresh_header_empty();
            assert forall|p: int| new_leaf.owns(p) implies !m0.is_mapped(p) by {}
            assert forall|u: int| 0 <= u < 32 implies new_leaf.header().occupied(u) == (u < 0) by {}
            assert forall|t: int| 0 <= t < 32 implies self.header().occupied(t) == (
            l0.header().occupied(t) && !exists|j: int|
                new_first <= j < new_first && (#[trigger] sorted@[j]).2 == t) by {}
            assert(self.moving(
                leaf_manager@,
                new_leaf,
                l0,
                m0,
                sorted@,
                new_first as int,
                new_first as int,
            ));
        }
        let split_key: Vec<u8> = copy_range(&sorted[new_first].0, 0, sorted[new_first].0.len());
        assert(split_key@ == sorted@[new_first as int].0@);
        match self.move_upper_half(
            leaf_manager,
            &mut new_leaf,
            &sorted,
            new_first,
            saved,
            Ghost(l0),
            Ghost(m0),
        ) {
            Ok(_) => {},
            Err(e) => {
                return Err(e);
            },
        }
        self.link_sibling(
            leaf_manager,
            &mut new_leaf,
            Ghost(l0),
            Ghost(m0),
            Ghost(sorted@),
            Ghost(new_first as int),
        );
        assert(self.halved(leaf_manager@, new_leaf, split_key@, l0, m0, sorted@));
        assert(self.cut_in_half(leaf_manager@, new_leaf, split_key@, l0, m0));
        Ok((split_key, new_leaf))
    }
}


impl Leaf {
    /// Whether an insert of `key` splits the leaf: all slots are taken, and
    /// none of them by `key`.
    pub open spec fn splits_on(&self, m: LeafManagerView, key: Seq<u8>) -> bool {
        self.header().full() && self.lookup(m, key) is None
    }

    /// This leaf is `before` with the slot that held `key` cleared.
    pub open spec fn invalidated_from(&self, before: Leaf, m: LeafManagerView, key: Seq<u8>) -> bool {
        &&& self.id() == before.id()
        &&& self.page_id() == before.page_id()
        &&& self.root_flag() == before.root_flag()
        &&& self.header().same_but_bitmap(before.header())
        &&& forall|t: int|
            0 <= t < 32 ==> self.header().occupied(t) == (before.header().occupied(t)
                && before.slot_key(m, t) != key)
    }

    /// What an insert without a split leaves behind: a sound leaf that
    /// maps `key` to `value` and every other key as before.
    pub open spec fn inserted(
        &self,
        m: LeafManagerView,
        before: Leaf,
        a: LeafManagerView,
        key: Seq<u8>,
        value: Seq<u8>,
    ) -> bool {
        &&& self.wf(m)
        &&& self.id() == before.id()
        &&& self.root_flag() == before.root_flag()
        &&& self.header().next == before.header().next
        &&& forall|p: int| self.owns(p) ==> before.owns(p) || !a.is_mapped(p)
        &&& forall|k: Seq<u8>|
            self.lookup(m, k) == (if k == key {
                Some(value)
            } else {
                before.lookup(a, k)
            })
    }

    /// What an insert with a split leaves behind: two sound leaves, the
    /// new one on pages of its own behind this one in the sibling chain,
    /// that together map `key` to `value` and every other key as before;
    /// the keys below the split key are here, the others in the sibling.
    pub open spec fn inserted_with_split(
        &self,
        m: LeafManagerView,
        sibling: Leaf,
        split_key: Seq<u8>,
        before: Leaf,
        a: LeafManagerView,
        key: Seq<u8>,
        value: Seq<u8>,
    ) -> bool {
        &&& self.wf(m)
        &&& sibling.wf(m)
        &&& self.id() == before.id()
        &&& self.root_flag() == before.root_flag()
        &&& !sibling.root_flag()
        &&& forall|p: int| self.owns(p) ==> before.owns(p) || !a.is_mapped(p)
        &&& forall|p: int| sibling.owns(p) ==> !a.is_mapped(p)
        &&& forall|p: int| !(self.owns(p) && sibling.owns(p))
        &&& sibling.header().next == before.header().next
        &&& self.header().next == sibling.id()
        &&& sibling.lookup(m, split_key) is Some
        &&& exists|k: Seq<u8>| self.lookup(m, k) is Some
        &&& forall|k: Seq<u8>|
            (if k == key {
                Some(value)
            } else {
                before.lookup(a, k)
            }) == (if key_lt(k, split_key) {
                self.lookup(m, k)
            } else {
                sibling.lookup(m, k)
            })
        &&& forall|k: Seq<u8>| self.lookup(m, k) is Some ==> key_lt(k, split_key)
        &&& forall|k: Seq<u8>| sibling.lookup(m, k) is Some ==> !key_lt(k, split_key)
    }
}

impl Leaf {
    /// Whether slot `t` is free for `key`: it holds no pair, or it holds
    /// the pair of `key`, which an insert of `key` clears first.
    pub open spec fn free_for(&self, m: LeafManagerView, t: int, key: Seq<u8>) -> bool {
        !self.header().occupied(t) || self.slot_key(m, t) == key
    }

    /// Every taken slot reads under `m` what it read under `a`.
    pub open spec fn reads_kept(&self, m: LeafManagerView, a: LeafManagerView) -> bool {
        forall|t: int|
            0 <= t < 32 && self.header().occupied(t) ==> #[trigger] self.slot_result(m, t)
                == self.slot_result(a, t)
    }

    /// An insert without a split put the pair into `slot`: the lowest
    /// slot that is free for the key. The slot that held the key is
    /// cleared, the other slots are as they were and read as before, and
    /// the pair lies where `entered` says, a new extension page being the
    /// next page that the leaf file hands out, and reads back from there.
    pub open spec fn placed_at(
        &self,
        m: LeafManagerView,
        before: Leaf,
        a: LeafManagerView,
        slot: int,
        key: Seq<u8>,
        value: Seq<u8>,
    ) -> bool {
        &&& 0 <= slot < 32
        &&& self.slot_result(m, slot) == Ok::<(Seq<u8>, Seq<u8>), StoreError>((key, value))
        &&& forall|t: int|
            0 <= t < 32 && t != slot && self.header().occupied(t) ==> #[trigger] self.slot_result(
                m,
                t,
            ) == before.slot_result(a, t)
        &&& before.free_for(a, slot, key)
        &&& forall|t: int| 0 <= t < slot ==> !#[trigger] before.free_for(a, t, key)
        &&& forall|t: int|
            0 <= t < 32 ==> self.header().occupied(t) == (t == slot || !before.free_for(a, t, key))
        &&& self.entered(before, slot, key, value, a.next_free())
        &&& self.header().next == before.header().next
        &&& self.header().magic == before.header().magic
        &&& self.id() == before.id()
    }

    /// An insert without a split put the pair into the lowest slot that
    /// is free for the key.
    pub open spec fn placed(
        &self,
        m: LeafManagerView,
        before: Leaf,
        a: LeafManagerView,
        key: Seq<u8>,
        value: Seq<u8>,
    ) -> bool {
        exists|slot: int| self.placed_at(m, before, a, slot, key, value)
    }

    /// An insert with a split is a split into `left` and `right` under
    /// `mid`, cut in the middle, and then the insert of the pair into the
    /// half that its key belongs to, which leaves the other half alone:
    /// that half is as it was and reads as before.
    pub open spec fn placed_after(
        &self,
        m: LeafManagerView,
        sibling: Leaf,
        split_key: Seq<u8>,
        before: Leaf,
        a: LeafManagerView,
        key: Seq<u8>,
        value: Seq<u8>,
        left: Leaf,
        right: Leaf,
        mid: LeafManagerView,
    ) -> bool {
        &&& left.split_from(mid, right, split_key, before, a)
        &&& left.cut_in_half(mid, right, split_key, before, a)
        &&& if key_lt(key, split_key) {
            self.placed(m, left, mid, key, value) && sibling == right && right.reads_kept(m, mid)
        } else {
            sibling.placed(m, right, mid, key, value) && *self == left && left.reads_kept(m, mid)
        }
    }

    /// An insert with a split is a split in the middle and then the
    /// insert of the pair into the half that its key belongs to.
    pub open spec fn split_then_placed(
        &self,
        m: LeafManagerView,
        sibling: Leaf,
        split_key: Seq<u8>,
        before: Leaf,
        a: LeafManagerView,
        key: Seq<u8>,
        value: Seq<u8>,
    ) -> bool {
        exists|left: Leaf, right: Leaf, mid: LeafManagerView|
            self.placed_after(m, sibling, split_key, before, a, key, value, left, right, mid)
    }
}

/// A leaf reads as before after a pair was stored in another leaf, with
/// which it shares no page.
proof fn lemma_kept_beside(leaf: Leaf, other: Leaf, a: LeafManagerView, b: LeafManagerView)
    requires
        leaf.wf(a),
        b.wf(),
        forall|p: int| !(leaf.owns(p) && other.owns(p)),
        forall|p: int| a.is_mapped(p) ==> b.is_mapped(p),
        forall|p: int|
            a.is_mapped(p) && p != other.id() && p != other.page_id() ==> #[trigger] a.same_page(
                b,
                p,
            ),
    ensures
        leaf.reads_kept(b, a),
{
    assert(other.owns(other.id() as int));
    assert(other.owns(other.page_id() as int));
    assert forall|p: int| leaf.owns(p) implies b.is_mapped(p) && a.same_page(b, p) by {
        lemma_owned_mapped(leaf, a, p);
    }
    lemma_leaf_preserved(leaf, a, b);
}

/// A pair that was entered into the lowest free slot of a leaf whose slot
/// of the key was cleared was placed as an insert places it.
proof fn lemma_placed(
    l0: Leaf,
    l1: Leaf,
    m0: LeafManagerView,
    after: Leaf,
    m: LeafManagerView,
    slot: int,
    key: Seq<u8>,
    value: Seq<u8>,
)
    requires
        l1.invalidated_from(l0, m0, key),
        0 <= slot < 32,
        !l1.header().occupied(slot),
        forall|t: int| 0 <= t < slot ==> l1.header().occupied(t),
        after.entered(l1, slot, key, value, m0.next_free()),
        forall|t: int|
            0 <= t < 32 ==> after.header().occupied(t) == (t == slot || l1.header().occupied(t)),
        after.header().next == l1.header().next,
        after.header().magic == l1.header().magic,
        after.id() == l1.id(),
        after.slot_result(m, slot) == Ok::<(Seq<u8>, Seq<u8>), StoreError>((key, value)),
        after.keeps(m, l1, m0),
    ensures
        after.placed(m, l0, m0, key, value),
{
    assert forall|t: int| 0 <= t < 32 implies l1.header().occupied(t) == !l0.free_for(m0, t, key) by {}
    assert(after.entered(l0, slot, key, value, m0.next_free()));
    assert forall|t: int| 0 <= t < 32 && t != slot && after.header().occupied(t)
        implies #[trigger] after.slot_result(m, t) == l0.slot_result(m0, t) by {
        assert(l1.header().occupied(t));
        assert(after.slot_result(m, t) == l1.slot_result(m0, t));
    }
    assert(after.placed_at(m, l0, m0, slot, key, value));
}

/// What a split says of a full leaf whose slot of a key was cleared, it
/// says of the leaf as it was, which did not hold the key.
proof fn lemma_split_of_cleared(
    l0: Leaf,
    l1: Leaf,
    m0: LeafManagerView,
    left: Leaf,
    sib: Leaf,
    m2: LeafManagerView,
    split_key: Seq<u8>,
    key: Seq<u8>,
)
    requires
        l0.wf(m0),
        l1.invalidated_from(l0, m0, key),
        l1.header().full(),
        left.split_from(m2, sib, split_key, l1, m0),
        left.cut_in_half(m2, sib, split_key, l1, m0),
    ensures
        left.split_from(m2, sib, split_key, l0, m0),
        left.cut_in_half(m2, sib, split_key, l0, m0),
{
    lemma_invalidated_lookup(l0, l1, m0, key);
    assert forall|t: int| 0 <= t < 32 implies l0.header().occupied(t) by {
        assert(l1.header().occupied(t));
    }
    assert forall|t: int| 0 <= t < 32 implies l1.slot_result(m0, t) == l0.slot_result(m0, t) by {}
    assert forall|t: int| 0 <= t < 32 && l0.header().occupied(t) implies l0.slot_key(m0, t)
        != key by {
        assert(l1.header().occupied(t));
    }
    lemma_lookup_none_of_cleared(l0, m0, key);
    assert forall|k: Seq<u8>| l1.lookup(m0, k) == l0.lookup(m0, k) by {}
    let sorted = choose|sorted: Seq<(Vec<u8>, Vec<u8>, usize)>|
        left.halved(m2, sib, split_key, l1, m0, sorted);
    assert(sorted_listing(l0, m0, sorted));
    assert(left.halved(m2, sib, split_key, l0, m0, sorted));
}

/// A leaf in which no taken slot holds `key` does not know `key`.
proof fn lemma_lookup_none_of_cleared(leaf: Leaf, m: LeafManagerView, key: Seq<u8>)
    requires
        forall|t: int| 0 <= t < 32 && leaf.header().occupied(t) ==> leaf.slot_key(m, t) != key,
    ensures
        leaf.lookup(m, key) is None,
{
    assert forall|s: int| !leaf.holds(m, s, key) by {}
}

/// A leaf whose slot of a key was cleared is full where the leaf was full
/// and did not know the key.
proof fn lemma_splits_on(before: Leaf, after: Leaf, m: LeafManagerView, key: Seq<u8>)
    requires
        before.wf(m),
        after.invalidated_from(before, m, key),
    ensures
        after.header().full() == before.splits_on(m, key),
{
    if before.splits_on(m, key) {
        assert forall|t: int| 0 <= t < 32 implies after.header().occupied(t) by {
            assert(before.header().occupied(t));
            if before.slot_key(m, t) == key {
                assert(before.holds(m, t, key));
            }
        }
    } else if before.header().full() {
        let t = choose|t: int| before.holds(m, t, key);
        assert(!after.header().occupied(t));
    } else {
        let t = choose|t: int| 0 <= t < 32 && !before.header().occupied(t);
        assert(!after.header().occupied(t));
    }
}

/// A leaf that does not know a key has no slot with it.
proof fn lemma_lookup_none(leaf: Leaf, m: LeafManagerView, key: Seq<u8>)
    requires
        leaf.lookup(m, key) is None,
    ensures
        forall|t: int| 0 <= t < 32 && leaf.header().occupied(t) ==> leaf.slot_key(m, t) != key,
{
    assert forall|t: int| 0 <= t < 32 && leaf.header().occupied(t) implies leaf.slot_key(m, t)
        != key by {
        if leaf.slot_key(m, t) == key {
            assert(leaf.holds(m, t, key));
        }
    }
}

/// Clearing the slot of a key forgets the key and nothing else.
proof fn lemma_invalidated_lookup(before: Leaf, after: Leaf, m: LeafManagerView, key: Seq<u8>)
    requires
        before.base(m),
        after.invalidated_from(before, m, key),
    ensures
        forall|k: Seq<u8>|
            after.lookup(m, k) == (if k == key {
                None
            } else {
                before.lookup(m, k)
            }),
{
    assert forall|k: Seq<u8>|
        after.lookup(m, k) == (if k == key {
            None
        } else {
            before.lookup(m, k)
        }) by {
        assert forall|t: int| after.holds(m, t, k) == (k != key && before.holds(m, t, k)) by {}
        if k != key && exists|t: int| before.holds(m, t, k) {
            let t = choose|t: int| before.holds(m, t, k);
            assert(after.holds(m, t, k));
            assert forall|t2: int| after.holds(m, t2, k) implies t2 == t by {
                assert(before.holds(m, t2, k));
            }
            assert forall|t2: int| before.holds(m, t2, k) implies t2 == t by {}
            lemma_lookup_is(after, m, t, k);
            lemma_lookup_is(before, m, t, k);
        } else {
            assert(!exists|t: int| after.holds(m, t, k));
        }
    }
}

/// Storing the pair of a key that the leaf did not hold adds the key and
/// changes nothing else.
#[verifier::rlimit(50)]
proof fn lemma_stored_lookup(
    before: Leaf,
    a: LeafManagerView,
    after: Leaf,
    m: LeafManagerView,
    slot: int,
    key: Seq<u8>,
    value: Seq<u8>,
)
    requires
        before.base(a),
        0 <= slot < 32,
        !before.header().occupied(slot),
        forall|t: int| 0 <= t < 32 && before.header().occupied(t) ==> before.slot_key(a, t) != key,
        after.pair_stored(m, before, a, slot, key, value),
    ensures
        forall|k: Seq<u8>|
            after.lookup(m, k) == (if k == key {
                Some(value)
            } else {
                before.lookup(a, k)
            }),
        forall|p: int| after.owns(p) ==> before.owns(p) || !a.is_mapped(p),
{
    assert forall|k: Seq<u8>|
        after.lookup(m, k) == (if k == key {
            Some(value)
        } else {
            before.lookup(a, k)
        }) by {
        if k == key {
            assert(after.holds(m, slot, key));
            lemma_lookup_unique(after, m, slot, key);
        } else {
            assert forall|t: int| after.holds(m, t, k) == before.holds(a, t, k) by {
                if 0 <= t < 32 && t != slot && before.header().occupied(t) {
                    assert(after.slot_result(m, t) == before.slot_result(a, t));
                }
            }
            if exists|t: int| before.holds(a, t, k) {
                let t = choose|t: int| before.holds(a, t, k);
                assert(after.holds(m, t, k));
                lemma_lookup_unique(after, m, t, k);
                assert forall|t2: int| before.holds(a, t2, k) implies t2 == t by {}
                lemma_lookup_is(before, a, t, k);
                assert(after.slot_result(m, t) == before.slot_result(a, t));
            } else {
                assert(!exists|t: int| after.holds(m, t, k));
            }
        }
    }
    assert forall|p: int| after.owns(p) implies before.owns(p) || !a.is_mapped(p) by {
        if p != after.id() && p != after.page_id() {
            let t = choose|t: int|
                0 <= t < 32 && after.header().occupied(t) && (#[trigger] after.header().kv_info[t]).page_id
                    == p;
            if t != slot {
                assert(before.header().occupied(t));
                assert(before.header().kv_info[t].page_id == p);
            }
        }
    }
}


/// Whether a pair of these sizes fits into an empty page.
pub fn fits_empty_page(key_size: usize, value_size: usize) -> (fits: bool)
    ensures
        fits == fits_page(4096, key_size as int, value_size as int),
{
    if key_size > END_TAIL_OFFSET || value_size > END_TAIL_OFFSET {
        return false;
    }
    let aligned: usize = crate::util::data_util::round_up_size(key_size + value_size + 16);
    aligned <= END_TAIL_OFFSET - INITIAL_TAIL_OFFSET
}

/// After a split and the insert of `key` into the sibling, the two leaves
/// share the pairs as they should.
#[verifier::rlimit(50)]
proof fn lemma_split_then_right(
    l0: Leaf,
    l1: Leaf,
    m0: LeafManagerView,
    left: Leaf,
    sib: Leaf,
    m2: LeafManagerView,
    sib2: Leaf,
    m3: LeafManagerView,
    split_key: Seq<u8>,
    slot: int,
    key: Seq<u8>,
    value: Seq<u8>,
)
    requires
        l0.wf(m0),
        l1.base(m0),
        l1.invalidated_from(l0, m0, key),
        l1.header().full(),
        left.split_from(m2, sib, split_key, l1, m0),
        !key_lt(key, split_key),
        0 <= slot < 32,
        !sib.header().occupied(slot),
        sib2.pair_stored(m3, sib, m2, slot, key, value),
        m3.wf(),
        forall|p: int| m2.is_mapped(p) ==> m3.is_mapped(p),
        forall|p: int|
            m2.is_mapped(p) && p != sib.id() && p != sib.page_id() ==> #[trigger] m2.same_page(m3, p),
        forall|p: int| m0.is_mapped(p) ==> m2.is_mapped(p),
    ensures
        left.inserted_with_split(m3, sib2, split_key, l0, m0, key, value),
{
    lemma_invalidated_lookup(l0, l1, m0, key);
    assert(l1.lookup(m0, key) is None);
    assert(sib.lookup(m2, key) == l1.lookup(m0, key));
    lemma_lookup_none(sib, m2, key);
    lemma_stored_lookup(sib, m2, sib2, m3, slot, key, value);
    assert(sib.owns(sib.id() as int));
    assert(sib.owns(sib.page_id() as int));
    assert forall|p: int| left.owns(p) implies m3.is_mapped(p) && m2.same_page(m3, p) by {
        lemma_owned_mapped(left, m2, p);
        assert(l1.owns(p)) by {
            if p != left.id() && p != left.page_id() {
                let t = choose|t: int|
                    0 <= t < 32 && left.header().occupied(t)
                        && (#[trigger] left.header().kv_info[t]).page_id == p;
                assert(l1.header().occupied(t));
                assert(l1.header().kv_info[t].page_id == p);
            }
        }
        lemma_owned_mapped(l1, m0, p);
    }
    lemma_leaf_preserved(left, m2, m3);
    assert forall|p: int| left.owns(p) implies l0.owns(p) || !m0.is_mapped(p) by {
        if p != left.id() && p != left.page_id() {
            let t = choose|t: int|
                0 <= t < 32 && left.header().occupied(t) && (#[trigger] left.header().kv_info[t]).page_id
                    == p;
            assert(l1.header().occupied(t));
            assert(l0.header().occupied(t));
            assert(l0.header().kv_info[t].page_id == p);
        }
    }
    assert forall|p: int| sib2.owns(p) implies !m0.is_mapped(p) by {
        if sib.owns(p) {
        } else {
            assert(!m2.is_mapped(p));
        }
    }
    assert forall|p: int| !(left.owns(p) && sib2.owns(p)) by {
        if left.owns(p) {
            assert(m0.is_mapped(p));
        }
    }
    assert forall|k: Seq<u8>|
        (if k == key {
            Some(value)
        } else {
            l0.lookup(m0, k)
        }) == (if key_lt(k, split_key) {
            left.lookup(m3, k)
        } else {
            sib2.lookup(m3, k)
        }) && (left.lookup(m3, k) is Some ==> key_lt(k, split_key)) && (sib2.lookup(m3, k)
            is Some ==> !key_lt(k, split_key)) by {
        assert(l1.lookup(m0, k) == (if key_lt(k, split_key) {
            left.lookup(m2, k)
        } else {
            sib.lookup(m2, k)
        }));
        assert(left.lookup(m3, k) == left.lookup(m2, k));
        assert(sib2.lookup(m3, k) == (if k == key {
            Some(value)
        } else {
            sib.lookup(m2, k)
        }));
        assert(left.lookup(m2, k) is Some ==> key_lt(k, split_key));
        assert(sib.lookup(m2, k) is Some ==> !key_lt(k, split_key));
    }
    assert(sib2.lookup(m3, split_key) is Some) by {
        assert(sib2.lookup(m3, split_key) == (if split_key == key {
            Some(value)
        } else {
            sib.lookup(m2, split_key)
        }));
    }
    assert(l1.header().full());
    let k0 = choose|k: Seq<u8>| left.lookup(m2, k) is Some;
    assert(left.lookup(m3, k0) == left.lookup(m2, k0));
    assert(left.lookup(m3, k0) is Some);
}

/// After a split and the insert of `key` into the leaf that was split, the
/// two leaves share the pairs as they should.
#[verifier::rlimit(50)]
proof fn lemma_split_then_left(
    l0: Leaf,
    l1: Leaf,
    m0: LeafManagerView,
    left: Leaf,
    sib: Leaf,
    m2: LeafManagerView,
    left2: Leaf,
    m3: LeafManagerView,
    split_key: Seq<u8>,
    slot: int,
    key: Seq<u8>,
    value: Seq<u8>,
)
    requires
        l0.wf(m0),
        l1.base(m0),
        l1.invalidated_from(l0, m0, key),
        l1.header().full(),
        left.split_from(m2, sib, split_key, l1, m0),
        key_lt(key, split_key),
        0 <= slot < 32,
        !left.header().occupied(slot),
        left2.pair_stored(m3, left, m2, slot, key, value),
        m3.wf(),
        forall|p: int| m2.is_mapped(p) ==> m3.is_mapped(p),
        forall|p: int|
            m2.is_mapped(p) && p != left.id() && p != left.page_id() ==> #[trigger] m2.same_page(
                m3,
                p,
            ),
        forall|p: int| m0.is_mapped(p) ==> m2.is_mapped(p),
    ensures
        left2.inserted_with_split(m3, sib, split_key, l0, m0, key, value),
{
    lemma_invalidated_lookup(l0, l1, m0, key);
    assert(l1.lookup(m0, key) is None);
    assert(left.lookup(m2, key) == l1.lookup(m0, key));
    lemma_lookup_none(left, m2, key);
    lemma_stored_lookup(left, m2, left2, m3, slot, key, value);
    assert(l1.owns(l1.id() as int));
    assert(l1.owns(l1.page_id() as int));
    lemma_owned_mapped(l1, m0, l1.id() as int);
    lemma_owned_mapped(l1, m0, l1.page_id() as int);
    assert forall|p: int| sib.owns(p) implies m3.is_mapped(p) && m2.same_page(m3, p) by {
        lemma_owned_mapped(sib, m2, p);
        assert(!m0.is_mapped(p));
    }
    lemma_leaf_preserved(sib, m2, m3);
    assert forall|p: int| left2.owns(p) implies l0.owns(p) || !m0.is_mapped(p) by {
        if left.owns(p) {
            if p != left.id() && p != left.page_id() {
                let t = choose|t: int|
                    0 <= t < 32 && left.header().occupied(t)
                        && (#[trigger] left.header().kv_info[t]).page_id == p;
                assert(l1.header().occupied(t));
                assert(l0.header().occupied(t));
                assert(l0.header().kv_info[t].page_id == p);
            }
        } else {
            assert(!m2.is_mapped(p));
        }
    }
    assert forall|p: int| !(left2.owns(p) && sib.owns(p)) by {
        if sib.owns(p) {
            lemma_owned_mapped(sib, m2, p);
            assert(!m0.is_mapped(p));
            if left.owns(p) {
                lemma_owned_mapped(left, m2, p);
                if p != left.id() && p != left.page_id() {
                    let t = choose|t: int|
                        0 <= t < 32 && left.header().occupied(t)
                            && (#[trigger] left.header().kv_info[t]).page_id == p;
                    assert(l1.header().occupied(t));
                    assert(l1.header().kv_info[t].page_id == p);
                    assert(l1.owns(p));
                }
                lemma_owned_mapped(l1, m0, p);
            }
        }
    }
    assert forall|k: Seq<u8>|
        (if k == key {
            Some(value)
        } else {
            l0.lookup(m0, k)
        }) == (if key_lt(k, split_key) {
            left2.lookup(m3, k)
        } else {
            sib.lookup(m3, k)
        }) && (left2.lookup(m3, k) is Some ==> key_lt(k, split_key)) && (sib.lookup(m3, k)
            is Some ==> !key_lt(k, split_key)) by {
        assert(l1.lookup(m0, k) == (if key_lt(k, split_key) {
            left.lookup(m2, k)
        } else {
            sib.lookup(m2, k)
        }));
        assert(sib.lookup(m3, k) == sib.lookup(m2, k));
        assert(left2.lookup(m3, k) == (if k == key {
            Some(value)
        } else {
            left.lookup(m2, k)
        }));
        assert(left.lookup(m2, k) is Some ==> key_lt(k, split_key));
        assert(sib.lookup(m2, k) is Some ==> !key_lt(k, split_key));
    }
    assert(sib.lookup(m3, split_key) is Some) by {
        assert(sib.lookup(m3, split_key) == sib.lookup(m2, split_key));
    }
    assert(l1.header().full());
    let k0 = choose|k: Seq<u8>| left.lookup(m2, k) is Some;
    assert(left2.lookup(m3, k0) == (if k0 == key {
        Some(value)
    } else {
        left.lookup(m2, k0)
    }));
    assert(left2.lookup(m3, k0) is Some);
}

impl Leaf {
    /// Stores `key` with `value`, replacing what the leaf had for `key`.
    /// The slot that held the key is cleared, and the pair is written at
    /// the write frontier, on a new extension page where it does not fit
    /// the page of the frontier, and entered into the lowest free slot.
    /// A full leaf is split first, and the pair goes to the new sibling
    /// where its key is not below the split key; the split key and the
    /// sibling are then returned.
    #[verifier::rlimit(50)]
    pub fn insert(&mut self, leaf_manager: &mut LeafManager, key: &Vec<u8>, value: &Vec<u8>) -> (res:
        Result<Option<(Vec<u8>, Leaf)>, StoreError>)
        requires
            old(self).wf(old(leaf_manager)@),
        ensures
            final(leaf_manager)@.wf(),
            final(leaf_manager)@.grew_from(old(leaf_manager)@, 18),
            !old(self).splits_on(old(leaf_manager)@, key@) ==> final(leaf_manager)@.grew_from(
                old(leaf_manager)@,
                1,
            ),
            forall|p: int| old(leaf_manager)@.is_mapped(p) ==> final(leaf_manager)@.is_mapped(p),
            forall|p: int|
                old(leaf_manager)@.is_mapped(p) && p != old(self).id() && p != old(self).page_id()
                    ==> #[trigger] old(leaf_manager)@.same_page(final(leaf_manager)@, p),
            res matches Ok(split) ==> (split is Some) == old(self).splits_on(
                old(leaf_manager)@,
                key@,
            ),
            res matches Ok(None) ==> final(self).placed(
                final(leaf_manager)@,
                *old(self),
                old(leaf_manager)@,
                key@,
                value@,
            ),
            res matches Ok(Some((split_key, sibling))) ==> final(self).split_then_placed(
                final(leaf_manager)@,
                sibling,
                split_key@,
                *old(self),
                old(leaf_manager)@,
                key@,
                value@,
            ),
            match res {
                Ok(None) => final(self).inserted(
                    final(leaf_manager)@,
                    *old(self),
                    old(leaf_manager)@,
                    key@,
                    value@,
                ),
                Ok(Some((split_key, sibling))) => final(self).inserted_with_split(
                    final(leaf_manager)@,
                    sibling,
                    split_key@,
                    *old(self),
                    old(leaf_manager)@,
                    key@,
                    value@,
                ),
                Err(e) => {
                    ||| {
                        &&& e == StoreError::TooLarge
                        &&& !fits_page(4096, key@.len() as int, value@.len() as int)
                        &&& *final(self) == *old(self)
                        &&& final(leaf_manager)@ == old(leaf_manager)@
                    }
                    ||| {
                        &&& e == StoreError::NoSpace
                        &&& fits_page(4096, key@.len() as int, value@.len() as int)
                        &&& !old(leaf_manager)@.room(18)
                    }
                },
            },
    {
        if !fits_empty_page(key.len(), value.len()) {
            proof {
                let m = old(leaf_manager)@;
                assert forall|p: int| m.is_mapped(p) implies #[trigger] m.same_page(m, p) by {}
            }
            return Err(StoreError::TooLarge);
        }
        let ghost l0 = *self;
        let ghost m0 = leaf_manager@;
        proof {
            lemma_wf_disk_ext(l0, m0);
        }
        match self.invalidate_data(leaf_manager, key) {
            Ok(_) => {},
            Err(e) => {
                proof {
                    assert(false);
                }
                return Err(e);
            },
        }
        let ghost l1 = *self;
        proof {
            lemma_splits_on(l0, l1, m0, key@);
        }
        if self.header.need_split() {
            assert(self.header().occupied(0));
            let (split_key, mut new_leaf) = match self.split(leaf_manager) {
                Ok(pair) => pair,
                Err(e) => {
                    proof {
                        assert forall|p: int|
                            m0.is_mapped(p) && p != l0.id() && p != l0.page_id()
                                implies #[trigger] m0.same_page(leaf_manager@, p) by {}
                    }
                    return Err(e);
                },
            };
            let ghost left = *self;
            let ghost sib = new_leaf;
            let ghost m2 = leaf_manager@;
            if !key_less(key.as_slice(), split_key.as_slice()) {
                let slot: usize = match new_leaf.header.get_empty_slot() {
                    Some(slot) => slot,
                    None => {
                        proof {
                            assert(false);
                        }
                        return Err(StoreError::NoSpace);
                    },
                };
                proof {
                    lemma_wf_disk_ext(sib, m2);
                    lemma_invalidated_lookup(l0, l1, m0, key@);
                    assert(l1.lookup(m0, key@) is None);
                    assert(sib.lookup(m2, key@) == l1.lookup(m0, key@));
                    lemma_lookup_none(sib, m2, key@);
                    assert(sib.owns(sib.id() as int));
                    assert(sib.owns(sib.page_id() as int));
                }
                match new_leaf.store_pair(leaf_manager, slot, key, value) {
                    Ok(_) => {},
                    Err(e) => {
                        proof {
                            assert forall|p: int|
                                m0.is_mapped(p) && p != l0.id() && p != l0.page_id()
                                    implies #[trigger] m0.same_page(leaf_manager@, p) by {}
                        }
                        return Err(e);
                    },
                }
                proof {
                    let m3 = leaf_manager@;
                    lemma_split_then_right(
                        l0,
                        l1,
                        m0,
                        left,
                        sib,
                        m2,
                        new_leaf,
                        m3,
                        split_key@,
                        slot as int,
                        key@,
                        value@,
                    );
                    assert forall|p: int|
                        m0.is_mapped(p) && p != l0.id() && p != l0.page_id()
                            implies #[trigger] m0.same_page(m3, p) by {
                        assert(m0.same_page(m2, p));
                        assert(m2.same_page(m3, p));
                    }
                    lemma_split_of_cleared(l0, l1, m0, left, sib, m2, split_key@, key@);
                    assert(new_leaf.placed_at(m3, sib, m2, slot as int, key@, value@));
                    lemma_kept_beside(left, sib, m2, m3);
                    assert(self.placed_after(
                        m3,
                        new_leaf,
                        split_key@,
                        l0,
                        m0,
                        key@,
                        value@,
                        left,
                        sib,
                        m2,
                    ));
                }
                return Ok(Some((split_key, new_leaf)));
            }
            let slot: usize = match self.header.get_empty_slot() {
                Some(slot) => slot,
                None => {
                    proof {
                        assert(false);
                    }
                    return Err(StoreError::NoSpace);
                },
            };
            proof {
                lemma_wf_disk_ext(left, m2);
                lemma_invalidated_lookup(l0, l1, m0, key@);
                assert(l1.lookup(m0, key@) is None);
                assert(left.lookup(m2, key@) == l1.lookup(m0, key@));
                lemma_lookup_none(left, m2, key@);
            }
            match self.store_pair(leaf_manager, slot, key, value) {
                Ok(_) => {},
                Err(e) => {
                    proof {
                        assert forall|p: int|
                            m0.is_mapped(p) && p != l0.id() && p != l0.page_id()
                                implies #[trigger] m0.same_page(leaf_manager@, p) by {}
                    }
                    return Err(e);
                },
            }
            proof {
                let m3 = leaf_manager@;
                lemma_split_then_left(
                    l0,
                    l1,
                    m0,
                    left,
                    sib,
                    m2,
                    *self,
                    m3,
                    split_key@,
                    slot as int,
                    key@,
                    value@,
                );
                assert forall|p: int|
                    m0.is_mapped(p) && p != l0.id() && p != l0.page_id()
                        implies #[trigger] m0.same_page(m3, p) by {
                    assert(m0.same_page(m2, p));
                    assert(m2.same_page(m3, p));
                }
                lemma_split_of_cleared(l0, l1, m0, left, sib, m2, split_key@, key@);
                assert(self.placed_at(m3, left, m2, slot as int, key@, value@));
                lemma_kept_beside(sib, left, m2, m3);
                assert(self.placed_after(
                    m3,
                    new_leaf,
                    split_key@,
                    l0,
                    m0,
                    key@,
                    value@,
                    left,
                    sib,
                    m2,
                ));
            }
            return Ok(Some((split_key, new_leaf)));
        }
        let slot: usize = match self.header.get_empty_slot() {
            Some(slot) => slot,
            None => {
                proof {
                    assert(false);
                }
                return Err(StoreError::NoSpace);
            },
        };
        match self.store_pair(leaf_manager, slot, key, value) {
            Ok(_) => {},
            Err(e) => {
                return Err(e);
            },
        }
        proof {
            lemma_placed(l0, l1, m0, *self, leaf_manager@, slot as int, key@, value@);
            lemma_invalidated_lookup(l0, l1, m0, key@);
            lemma_stored_lookup(l1, m0, *self, leaf_manager@, slot as int, key@, value@);
            assert forall|p: int| self.owns(p) implies l0.owns(p) || !m0.is_mapped(p) by {
                if l1.owns(p) {
                    if p != l1.id() && p != l1.page_id() {
                        let t = choose|t: int|
                            0 <= t < 32 && l1.header().occupied(t)
                                && (#[trigger] l1.header().kv_info[t]).page_id == p;
                        assert(l0.header().occupied(t));
                        assert(l0.header().kv_info[t].page_id == p);
                    }
                }
            }
        }
        Ok(None)
    }

    /// Marks `key` as deleted: stores it with an empty value.
    pub fn delete(&mut self, leaf_manager: &mut LeafManager, key: &Vec<u8>) -> (res: Result<
        Option<(Vec<u8>, Leaf)>,
        StoreError,
    >)
        requires
            old(self).wf(old(leaf_manager)@),
        ensures
            final(leaf_manager)@.wf(),
            final(leaf_manager)@.grew_from(old(leaf_manager)@, 18),
            !old(self).splits_on(old(leaf_manager)@, key@) ==> final(leaf_manager)@.grew_from(
                old(leaf_manager)@,
                1,
            ),
            forall|p: int| old(leaf_manager)@.is_mapped(p) ==> final(leaf_manager)@.is_mapped(p),
            forall|p: int|
                old(leaf_manager)@.is_mapped(p) && p != old(self).id() && p != old(self).page_id()
                    ==> #[trigger] old(leaf_manager)@.same_page(final(leaf_manager)@, p),
            res matches Ok(split) ==> (split is Some) == old(self).splits_on(
                old(leaf_manager)@,
                key@,
            ),
            res matches Ok(None) ==> final(self).placed(
                final(leaf_manager)@,
                *old(self),
                old(leaf_manager)@,
                key@,
                Seq::<u8>::empty(),
            ),
            res matches Ok(Some((split_key, sibling))) ==> final(self).split_then_placed(
                final(leaf_manager)@,
                sibling,
                split_key@,
                *old(self),
                old(leaf_manager)@,
                key@,
                Seq::<u8>::empty(),
            ),
            match res {
                Ok(None) => final(self).inserted(
                    final(leaf_manager)@,
                    *old(self),
                    old(leaf_manager)@,
                    key@,
                    Seq::<u8>::empty(),
                ),
                Ok(Some((split_key, sibling))) => final(self).inserted_with_split(
                    final(leaf_manager)@,
                    sibling,
                    split_key@,
                    *old(self),
                    old(leaf_manager)@,
                    key@,
                    Seq::<u8>::empty(),
                ),
                Err(e) => {
                    ||| {
                        &&& e == StoreError::TooLarge
                        &&& !fits_page(4096, key@.len() as int, 0)
                        &&& *final(self) == *old(self)
                        &&& final(leaf_manager)@ == old(leaf_manager)@
                    }
                    ||| {
                        &&& e == StoreError::NoSpace
                        &&& fits_page(4096, key@.len() as int, 0)
                        &&& !old(leaf_manager)@.room(18)
                    }
                },
            },
    {
        let tombstone: Vec<u8> = Vec::new();
        self.insert(leaf_manager, key, &tombstone)
    }
}


/// A leaf that differs from a sound leaf in its root flag only is sound
/// and stores the same.
#[verifier::rlimit(50)]
pub proof fn lemma_leaf_same(a: Leaf, b: Leaf, m: LeafManagerView)
    requires
        a.wf(m),
        b.header() == a.header(),
        b.id() == a.id(),
        b.page_id() == a.page_id(),
    ensures
        b.wf(m),
        forall|key: Seq<u8>| b.lookup(m, key) == a.lookup(m, key),
        forall|p: int| b.owns(p) == a.owns(p),
{
    assert forall|s: int| 0 <= s < 32 && b.header().occupied(s) implies b.slot_wf(m, s) by {
        assert(a.slot_wf(m, s));
    }
    assert forall|s: int, t: int|
        0 <= s < 32 && 0 <= t < 32 && s != t && b.header().occupied(s) && b.header().occupied(t)
            implies b.slot_key(m, s) != b.slot_key(m, t) by {
        assert(a.slot_key(m, s) != a.slot_key(m, t));
    }
    assert forall|key: Seq<u8>| b.lookup(m, key) == a.lookup(m, key) by {
        assert forall|s: int| b.holds(m, s, key) == a.holds(m, s, key) by {}
        if exists|s: int| a.holds(m, s, key) {
            let s = choose|s: int| a.holds(m, s, key);
            assert(b.holds(m, s, key));
            lemma_lookup_unique(a, m, s, key);
            lemma_lookup_unique(b, m, s, key);
        } else {
            assert(!exists|s: int| b.holds(m, s, key));
        }
    }
    assert forall|p: int| b.owns(p) == a.owns(p) by {
        if a.owns(p) && p != a.id() && p != a.page_id() {
            let t = choose|t: int|
                0 <= t < 32 && a.header().occupied(t) && (#[trigger] a.header().kv_info[t]).page_id
                    == p;
            assert(b.header().kv_info[t].page_id == p);
        }
        if b.owns(p) && p != b.id() && p != b.page_id() {
            let t = choose|t: int|
                0 <= t < 32 && b.header().occupied(t) && (#[trigger] b.header().kv_info[t]).page_id
                    == p;
            assert(a.header().kv_info[t].page_id == p);
        }
    }
}

} // verus!
