use crate::util::key_order::{
    key_equal, key_le, key_less, key_lt, lemma_key_lt_total, lemma_key_lt_transitive,
};
use vstd::prelude::*;

verus! {

/// An entry is kept only where it lies at least this far behind the last
/// one that was kept.
pub const LEAST_OFFSET: usize = 262144;

/// A stride-sampled index of a table: for some of its keys, in key order,
/// the offset at which the key's pair starts.
pub struct SparseIndex {
    prev_offset: usize,
    index: Vec<(Vec<u8>, usize)>,
}

/// What an index holds: the offset that was kept last, or `usize::MAX`
/// before any was, and the entries in key order.
pub struct SparseIndexView {
    pub prev_offset: usize,
    pub entries: Seq<(Seq<u8>, usize)>,
}

/// The keys and offsets that a list of entries holds.
pub open spec fn entry_views(index: Seq<(Vec<u8>, usize)>) -> Seq<(Seq<u8>, usize)> {
    Seq::new(index.len(), |i: int| (index[i].0@, index[i].1))
}

/// The number of entries that come before `key`: the place of `key` among
/// entries in key order.
pub open spec fn rank(entries: Seq<(Seq<u8>, usize)>, key: Seq<u8>) -> int
    decreases entries.len(),
{
    if entries.len() == 0 || !key_lt(entries[0].0, key) {
        0
    } else {
        1 + rank(entries.drop_first(), key)
    }
}

/// The entries with `key` at `offset`: in place of the entry of `key`
/// where there is one, else at the place of `key`.
pub open spec fn upsert(
    entries: Seq<(Seq<u8>, usize)>,
    key: Seq<u8>,
    offset: usize,
) -> Seq<(Seq<u8>, usize)> {
    let at = rank(entries, key);
    if at < entries.len() && entries[at].0 == key {
        entries.update(at, (key, offset))
    } else {
        entries.insert(at, (key, offset))
    }
}

/// The number of entries, counted from the first, that `key` has reached.
pub open spec fn reached(entries: Seq<(Seq<u8>, usize)>, key: Seq<u8>) -> int
    decreases entries.len(),
{
    if entries.len() == 0 || key_lt(key, entries[0].0) {
        0
    } else {
        1 + reached(entries.drop_first(), key)
    }
}

/// The entries that a key has reached are those that do not come after it.
pub proof fn lemma_reached(entries: Seq<(Seq<u8>, usize)>, key: Seq<u8>)
    ensures
        0 <= reached(entries, key) <= entries.len(),
        forall|j: int| 0 <= j < reached(entries, key) ==> !key_lt(key, (#[trigger] entries[j]).0),
        reached(entries, key) < entries.len() ==> key_lt(key, entries[reached(entries, key)].0),
    decreases entries.len(),
{
    if entries.len() == 0 || key_lt(key, entries[0].0) {
    } else {
        let rest = entries.drop_first();
        lemma_reached(rest, key);
        assert forall|j: int| 0 <= j < reached(entries, key) implies !key_lt(
            key,
            (#[trigger] entries[j]).0,
        ) by {
            if j > 0 {
                assert(entries[j] == rest[j - 1]);
            }
        }
    }
}

/// The first entry that comes after a key ends what the key has reached.
pub proof fn lemma_reached_is(entries: Seq<(Seq<u8>, usize)>, key: Seq<u8>, i: int)
    requires
        0 <= i <= entries.len(),
        forall|j: int| 0 <= j < i ==> !key_lt(key, (#[trigger] entries[j]).0),
        i < entries.len() ==> key_lt(key, entries[i].0),
    ensures
        reached(entries, key) == i,
    decreases entries.len(),
{
    if entries.len() == 0 {
    } else if i == 0 {
    } else {
        assert(!key_lt(key, entries[0].0));
        let rest = entries.drop_first();
        assert forall|j: int| 0 <= j < i - 1 implies !key_lt(key, (#[trigger] rest[j]).0) by {
            assert(rest[j] == entries[j + 1]);
        }
        lemma_reached_is(rest, key, i - 1);
    }
}

impl SparseIndexView {
    /// The offset at which a scan for `key` starts: that of the last entry
    /// that `key` has reached, if it has reached any.
    pub open spec fn offset_for(self, key: Seq<u8>) -> Option<usize> {
        let n = reached(self.entries, key);
        if n == 0 {
            None
        } else {
            Some(self.entries[n - 1].1)
        }
    }

    /// No key comes before an earlier one or twice.
    pub open spec fn wf(self) -> bool {
        forall|i: int, j: int|
            0 <= i < j < self.entries.len() ==> key_lt(self.entries[i].0, self.entries[j].0)
    }

    /// Whether an entry at `offset` is kept.
    pub open spec fn keeps(self, offset: usize) -> bool {
        self.prev_offset == usize::MAX || offset - self.prev_offset >= LEAST_OFFSET
    }

    /// The index after `insert(key, offset)`.
    pub open spec fn inserted(self, key: Seq<u8>, offset: usize) -> SparseIndexView {
        if self.keeps(offset) {
            SparseIndexView { prev_offset: offset, entries: upsert(self.entries, key, offset) }
        } else {
            self
        }
    }

    /// Whether entry `i` is the one of the greatest key that does not come
    /// after `key`.
    pub open spec fn covers(self, i: int, key: Seq<u8>) -> bool {
        &&& 0 <= i < self.entries.len()
        &&& key_le(self.entries[i].0, key)
        &&& i + 1 < self.entries.len() ==> key_lt(key, self.entries[i + 1].0)
    }

    /// The offsets ascend with the keys, each at least a stride behind the
    /// one before, and the last one is the offset that was kept last.
    pub open spec fn striding(self) -> bool {
        &&& self.wf()
        &&& forall|i: int|
            0 <= i < self.entries.len() - 1 ==> (#[trigger] self.entries[i]).1 + LEAST_OFFSET
                <= self.entries[i + 1].1
        &&& self.entries.len() > 0 ==> self.prev_offset == self.entries.last().1
            && self.prev_offset < usize::MAX
    }
}

impl View for SparseIndex {
    type V = SparseIndexView;

    closed spec fn view(&self) -> SparseIndexView {
        SparseIndexView { prev_offset: self.prev_offset, entries: entry_views(self.index@) }
    }
}

/// Where a key stands among entries in key order.
pub proof fn lemma_rank(entries: Seq<(Seq<u8>, usize)>, key: Seq<u8>)
    ensures
        0 <= rank(entries, key) <= entries.len(),
        forall|j: int| 0 <= j < rank(entries, key) ==> key_lt((#[trigger] entries[j]).0, key),
        rank(entries, key) < entries.len() ==> !key_lt(entries[rank(entries, key)].0, key),
    decreases entries.len(),
{
    if entries.len() == 0 || !key_lt(entries[0].0, key) {
    } else {
        let rest = entries.drop_first();
        lemma_rank(rest, key);
        assert forall|j: int| 0 <= j < rank(entries, key) implies key_lt(
            (#[trigger] entries[j]).0,
            key,
        ) by {
            if j > 0 {
                assert(entries[j] == rest[j - 1]);
            }
        }
    }
}

/// The first entry that does not come before a key is the place of the key.
pub proof fn lemma_rank_is(entries: Seq<(Seq<u8>, usize)>, key: Seq<u8>, i: int)
    requires
        0 <= i <= entries.len(),
        forall|j: int| 0 <= j < i ==> key_lt((#[trigger] entries[j]).0, key),
        i < entries.len() ==> !key_lt(entries[i].0, key),
    ensures
        rank(entries, key) == i,
    decreases entries.len(),
{
    if entries.len() == 0 {
    } else if i == 0 {
    } else {
        assert(key_lt(entries[0].0, key));
        let rest = entries.drop_first();
        assert forall|j: int| 0 <= j < i - 1 implies key_lt((#[trigger] rest[j]).0, key) by {
            assert(rest[j] == entries[j + 1]);
        }
        lemma_rank_is(rest, key, i - 1);
    }
}

/// Entering a key keeps the keys in order.
#[verifier::rlimit(50)]
pub proof fn lemma_upsert_wf(v: SparseIndexView, key: Seq<u8>, offset: usize)
    requires
        v.wf(),
    ensures
        v.inserted(key, offset).wf(),
{
    let entries = v.entries;
    lemma_rank(entries, key);
    let at = rank(entries, key);
    let after = upsert(entries, key, offset);
    assert forall|i: int, j: int| 0 <= i < j < after.len() implies key_lt(
        after[i].0,
        after[j].0,
    ) by {
        if at < entries.len() && entries[at].0 == key {
            assert(after[i].0 == entries[i].0);
            assert(after[j].0 == entries[j].0);
        } else {
            if j == at {
                assert(after[i] == entries[i]);
            } else if i == at {
                assert(after[j] == entries[j - 1]);
                lemma_key_lt_total(entries[at].0, key);
                if j - 1 > at {
                    lemma_key_lt_transitive(key, entries[at].0, entries[j - 1].0);
                }
            } else {
                let a = if i < at {
                    i
                } else {
                    i - 1
                };
                let b = if j < at {
                    j
                } else {
                    j - 1
                };
                assert(after[i] == entries[a]);
                assert(after[j] == entries[b]);
            }
        }
    }
}

/// Where keys are entered in ascending order at offsets that do not
/// descend, the offsets of the index ascend with its keys, and each lies
/// at least a stride behind the one before it.
#[verifier::rlimit(50)]
pub proof fn lemma_insert_striding(v: SparseIndexView, key: Seq<u8>, offset: usize)
    requires
        v.striding(),
        offset < usize::MAX,
        v.entries.len() == 0 ==> v.prev_offset == usize::MAX,
        v.entries.len() > 0 ==> key_lt(v.entries.last().0, key) && v.prev_offset <= offset,
    ensures
        v.inserted(key, offset).striding(),
        v.inserted(key, offset).entries == (if v.keeps(offset) {
            v.entries.push((key, offset))
        } else {
            v.entries
        }),
{
    let entries = v.entries;
    if v.keeps(offset) {
        assert forall|j: int| 0 <= j < entries.len() implies key_lt(
            (#[trigger] entries[j]).0,
            key,
        ) by {
            if j < entries.len() - 1 {
                lemma_key_lt_transitive(entries[j].0, entries.last().0, key);
            }
        }
        lemma_rank_is(entries, key, entries.len() as int);
        assert(upsert(entries, key, offset) =~= entries.push((key, offset)));
        lemma_upsert_wf(v, key, offset);
        let after = v.inserted(key, offset).entries;
        assert forall|i: int| 0 <= i < after.len() - 1 implies (#[trigger] after[i]).1
            + LEAST_OFFSET <= after[i + 1].1 by {
            if i < entries.len() - 1 {
                assert(after[i] == entries[i]);
                assert(after[i + 1] == entries[i + 1]);
            }
        }
    }
}

/// In a striding index the offsets ascend strictly with the keys.
pub proof fn lemma_striding_monotone(v: SparseIndexView, i: int, j: int)
    requires
        v.striding(),
        0 <= i < j < v.entries.len(),
    ensures
        key_lt(v.entries[i].0, v.entries[j].0),
        v.entries[i].1 < v.entries[j].1,
        v.entries[j].1 - v.entries[j - 1].1 >= LEAST_OFFSET,
        v.entries[j].1 - v.entries[i].1 >= LEAST_OFFSET * (j - i),
    decreases j - i,
{
    assert(v.entries[j - 1].1 + LEAST_OFFSET <= v.entries[j].1);
    if i < j - 1 {
        lemma_striding_monotone(v, i, j - 1);
    }
}

impl SparseIndex {
    /// An index without entries.
    pub fn new() -> (index: SparseIndex)
        ensures
            index@.prev_offset == usize::MAX,
            index@.entries.len() == 0,
            index@.wf(),
            index@.striding(),
    {
        SparseIndex { prev_offset: usize::MAX, index: Vec::new() }
    }

    /// An index of these parts, where the keys ascend strictly.
    pub fn from_parts(prev_offset: usize, entries: Vec<(Vec<u8>, usize)>) -> (index: Option<
        SparseIndex,
    >)
        ensures
            match index {
                Some(index) => {
                    &&& index@.wf()
                    &&& index@.prev_offset == prev_offset
                    &&& index@.entries == entry_views(entries@)
                },
                None => !(SparseIndexView {
                    prev_offset,
                    entries: entry_views(entries@),
                }).wf(),
            },
    {
        let ghost view = entry_views(entries@);
        let mut i: usize = 1;
        while i < entries.len()
            invariant
                1 <= i,
                view == entry_views(entries@),
                forall|a: int, b: int| 0 <= a < b < i && b < view.len() ==> key_lt(view[a].0, view[b].0),
            decreases entries@.len() - i,
        {
            if !key_less(entries[i - 1].0.as_slice(), entries[i].0.as_slice()) {
                proof {
                    let whole = SparseIndexView { prev_offset, entries: view };
                    assert(!key_lt(whole.entries[i - 1].0, whole.entries[i as int].0));
                    assert(!whole.wf());
                }
                return None;
            }
            proof {
                assert forall|a: int, b: int| 0 <= a < b < i + 1 && b < view.len() implies key_lt(
                    view[a].0,
                    view[b].0,
                ) by {
                    if b == i && a < i - 1 {
                        lemma_key_lt_transitive(view[a].0, view[i - 1].0, view[i as int].0);
                    }
                }
            }
            i = i + 1;
        }
        Some(SparseIndex { prev_offset, index: entries })
    }

    /// The offset that was kept last, `usize::MAX` before any was.
    pub fn get_prev_offset(&self) -> (offset: usize)
        ensures
            offset == self@.prev_offset,
    {
        self.prev_offset
    }

    /// The entries in key order.
    pub fn get_entries(&self) -> (entries: &Vec<(Vec<u8>, usize)>)
        ensures
            entry_views(entries@) == self@.entries,
    {
        &self.index
    }

    /// Enters `key` at `offset` if no entry was kept yet, or the last one
    /// that was kept lies at least a stride before `offset`.
    #[verifier::rlimit(50)]
    pub fn insert(&mut self, key: &[u8], offset: usize)
        requires
            old(self)@.wf(),
            old(self)@.prev_offset == usize::MAX || old(self)@.prev_offset <= offset,
        ensures
            final(self)@ == old(self)@.inserted(key@, offset),
            final(self)@.wf(),
    {
        if self.prev_offset == usize::MAX || offset - self.prev_offset >= LEAST_OFFSET {
            self.prev_offset = offset;
            let mut at: usize = 0;
            while at < self.index.len() && key_less(self.index[at].0.as_slice(), key)
                invariant
                    at <= self.index@.len(),
                    self.index@ == old(self).index@,
                    forall|j: int|
                        0 <= j < at ==> key_lt((#[trigger] entry_views(self.index@)[j]).0, key@),
                decreases self.index@.len() - at,
            {
                at = at + 1;
            }
            let ghost before = entry_views(self.index@);
            proof {
                lemma_rank_is(before, key@, at as int);
                lemma_upsert_wf(old(self)@, key@, offset);
            }
            if at < self.index.len() && key_equal(self.index[at].0.as_slice(), key) {
                let owned: Vec<u8> = vstd::slice::slice_to_vec(key);
                self.index[at] = (owned, offset);
                assert(entry_views(self.index@) =~= before.update(at as int, (key@, offset)));
            } else {
                let owned: Vec<u8> = vstd::slice::slice_to_vec(key);
                self.index.insert(at, (owned, offset));
                assert(entry_views(self.index@) =~= before.insert(at as int, (key@, offset)));
            }
        }
    }

    /// The offset of the greatest indexed key that does not come after
    /// `key`; `None` where every indexed key comes after `key`.
    pub fn find(&self, key: &[u8]) -> (offset: Option<usize>)
        requires
            self@.wf(),
        ensures
            offset == self@.offset_for(key@),
            match offset {
                Some(offset) => exists|i: int|
                    self@.covers(i, key@) && (#[trigger] self@.entries[i]).1 == offset,
                None => forall|i: int|
                    0 <= i < self@.entries.len() ==> key_lt(key@, (#[trigger] self@.entries[i]).0),
            },
    {
        let mut at: usize = 0;
        while at < self.index.len() && !key_less(key, self.index[at].0.as_slice())
            invariant
                at <= self.index@.len(),
                forall|j: int| 0 <= j < at ==> !key_lt(key@, (#[trigger] self@.entries[j]).0),
            decreases self.index@.len() - at,
        {
            at = at + 1;
        }
        proof {
            lemma_reached_is(self@.entries, key@, at as int);
        }
        if at == 0 {
            proof {
                assert forall|i: int| 0 <= i < self@.entries.len() implies key_lt(
                    key@,
                    (#[trigger] self@.entries[i]).0,
                ) by {
                    if i > 0 {
                        lemma_key_lt_transitive(key@, self@.entries[0].0, self@.entries[i].0);
                    }
                }
            }
            None
        } else {
            proof {
                lemma_key_lt_total(key@, self@.entries[at - 1].0);
                assert(self@.covers(at - 1, key@));
            }
            Some(self.index[at - 1].1)
        }
    }

    /// The offset of the greatest indexed key that does not come after
    /// `key`.
    pub fn get(&self, key: &[u8]) -> (offset: usize)
        requires
            self@.wf(),
            exists|i: int| 0 <= i < self@.entries.len() && key_le((#[trigger] self@.entries[i]).0, key@),
        ensures
            self@.offset_for(key@) == Some(offset),
            exists|i: int| self@.covers(i, key@) && (#[trigger] self@.entries[i]).1 == offset,
    {
        match self.find(key) {
            Some(offset) => offset,
            None => {
                proof {
                    let i = choose|i: int|
                        0 <= i < self@.entries.len() && key_le((#[trigger] self@.entries[i]).0, key@);
                    lemma_key_lt_total(key@, self@.entries[i].0);
                    assert(false);
                }
                vstd::pervasive::unreached()
            },
        }
    }
}

} // verus!
