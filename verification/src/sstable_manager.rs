use crate::amphis_error::StoreError;
use crate::sparse_index::{SparseIndex, SparseIndexView};
use crate::util::data_util::{
    append_slot, calc_crc, check_crc, copy_range, crc32_ieee, lemma_slot_bytes_ok, pair_bytes,
    slot_bytes,
};
use crate::util::key_order::key_equal;
use bloomfilter::Bloom;
use vstd::bytes::{
    lemma_auto_spec_u32_to_from_le_bytes, spec_u32_from_le_bytes, u32_from_le_bytes,
};
use vstd::prelude::*;
use vstd::slice::{slice_subrange, slice_to_vec};

verus! {

/// How tables are told apart.
pub type TableId = usize;

#[verifier::external_type_specification]
#[verifier::external_body]
#[verifier::reject_recursive_types(T)]
pub struct ExBloom<T: ?Sized>(Bloom<T>);

/// The keys that a filter lets pass: those it was told of, and those it
/// mistakes for them.
pub uninterp spec fn bloom_admitted(filter: Bloom<Vec<u8>>) -> Set<Seq<u8>>;

/// Whether a filter has as many bits as it counts, and at least one.
pub uninterp spec fn bloom_sound(filter: Bloom<Vec<u8>>) -> bool;

/// Makes a filter with `bloomfilter::Bloom::new_with_seed`: a bitmap of
/// `bitmap_size` zeroed bytes and the hash keys that `seed` gives. Such a
/// filter has the bits it counts and lets no key pass. `new_with_seed`
/// panics on a size or count of zero and on a size whose bits cannot be
/// counted, which are left out.
#[verifier::external_body]
pub(crate) fn bloom_new(bitmap_size: usize, items_count: usize, seed: &[u8; 32]) -> (filter: Bloom<
    Vec<u8>,
>)
    requires
        bitmap_size > 0,
        items_count > 0,
        bitmap_size * 8 <= usize::MAX,
    ensures
        bloom_sound(filter),
        bloom_admitted(filter) == Set::<Seq<u8>>::empty(),
{
    Bloom::new_with_seed(bitmap_size, items_count, seed)
}

/// Tells a filter of a key with `bloomfilter::Bloom::set`, which sets the
/// bits of the key and clears none: the key passes from then on, and so
/// does every key that passed before. The number of bits stays.
#[verifier::external_body]
pub(crate) fn bloom_set(filter: &mut Bloom<Vec<u8>>, key: &Vec<u8>)
    requires
        bloom_sound(*old(filter)),
    ensures
        bloom_sound(*final(filter)),
        bloom_admitted(*final(filter)).contains(key@),
        forall|k: Seq<u8>|
            bloom_admitted(*old(filter)).contains(k) ==> bloom_admitted(*final(filter)).contains(k),
{
    filter.set(key);
}

/// Asks a filter for a key with `bloomfilter::Bloom::check`, which reads
/// the bits of the key: whether the key passes depends on the filter and
/// the key alone.
#[verifier::external_body]
pub(crate) fn bloom_check(filter: &Bloom<Vec<u8>>, key: &Vec<u8>) -> (passes: bool)
    requires
        bloom_sound(*filter),
    ensures
        passes == bloom_admitted(*filter).contains(key@),
{
    filter.check(key)
}

/// What is known of a table: its id, the length of its file, its level,
/// the filter of its keys and the index of its offsets.
pub struct TableInfo {
    pub id: TableId,
    pub size: usize,
    pub level: usize,
    pub filter: Bloom<Vec<u8>>,
    pub index: SparseIndex,
}

/// What reading one slot of a table at `at` yields: nothing at the end of
/// the table, else the payload of a slot that lies in the table and passes
/// its checksum.
pub open spec fn slot_at(table: Seq<u8>, at: int) -> Result<Option<Seq<u8>>, StoreError> {
    if at == table.len() {
        Ok(None)
    } else if at + 4 > table.len() {
        Err(StoreError::OutOfRange)
    } else {
        let size = spec_u32_from_le_bytes(table.subrange(at, at + 4)) as int;
        if at + 8 + size > table.len() {
            Err(StoreError::OutOfRange)
        } else if crc32_ieee(table.subrange(at + 4, at + 4 + size)) != spec_u32_from_le_bytes(
            table.subrange(at + 4 + size, at + 8 + size),
        ) {
            Err(StoreError::CrcMismatch)
        } else {
            Ok(Some(table.subrange(at + 4, at + 4 + size)))
        }
    }
}

/// What scanning a table from `at` on for `key` yields: the value of the
/// first pair with that key, nothing where the table ends before one is
/// found, or the first failure to read a slot.
pub open spec fn scan_from(table: Seq<u8>, at: int, key: Seq<u8>) -> Result<
    Option<Seq<u8>>,
    StoreError,
>
    decreases table.len() - at,
{
    if at < 0 || at > table.len() {
        Err(StoreError::OutOfRange)
    } else {
        match slot_at(table, at) {
            Err(e) => Err(e),
            Ok(None) => Ok(None),
            Ok(Some(current)) => match slot_at(table, at + 8 + current.len()) {
                Err(e) => Err(e),
                Ok(value) => if current == key {
                    Ok(value)
                } else if value is None {
                    Ok(None)
                } else {
                    scan_from(table, at + 16 + current.len() + value->0.len(), key)
                },
            },
        }
    }
}

/// Reads the slot of `table` at `at`.
pub fn read_slot(table: &Vec<u8>, at: usize) -> (res: Result<Option<Vec<u8>>, StoreError>)
    requires
        at <= table@.len(),
    ensures
        match (res, slot_at(table@, at as int)) {
            (Ok(Some(data)), Ok(Some(expected))) => data@ == expected,
            (Ok(None), Ok(None)) => true,
            (Err(e), Err(expected)) => e == expected,
            _ => false,
        },
{
    let total: usize = table.len();
    if at == total {
        return Ok(None);
    }
    if total - at < 4 {
        return Err(StoreError::OutOfRange);
    }
    let size: usize = u32_from_le_bytes(slice_subrange(table.as_slice(), at, at + 4)) as usize;
    if total - at - 4 < 4 || size > total - at - 8 {
        return Err(StoreError::OutOfRange);
    }
    let crc: u32 = u32_from_le_bytes(
        slice_subrange(table.as_slice(), at + 4 + size, at + 8 + size),
    );
    match check_crc(slice_subrange(table.as_slice(), at + 4, at + 4 + size), crc) {
        Ok(_) => Ok(Some(copy_range(table, at + 4, at + 4 + size))),
        Err(e) => Err(e),
    }
}

/// Scans `table` from `offset` on for `key`.
pub fn get_from_table(table: &Vec<u8>, key: &Vec<u8>, offset: usize) -> (res: Result<
    Option<Vec<u8>>,
    StoreError,
>)
    ensures
        match (res, scan_from(table@, offset as int, key@)) {
            (Ok(Some(value)), Ok(Some(expected))) => value@ == expected,
            (Ok(None), Ok(None)) => true,
            (Err(e), Err(expected)) => e == expected,
            _ => false,
        },
{
    if offset > table.len() {
        return Err(StoreError::OutOfRange);
    }
    let total: usize = table.len();
    let mut at: usize = offset;
    loop
        invariant
            at <= table@.len(),
            total == table@.len(),
            scan_from(table@, at as int, key@) == scan_from(table@, offset as int, key@),
        decreases table@.len() - at,
    {
        let current: Vec<u8> = match read_slot(table, at) {
            Ok(Some(k)) => k,
            Ok(None) => {
                return Ok(None);
            },
            Err(e) => {
                return Err(e);
            },
        };
        assert(slot_at(table@, at as int) == Ok::<Option<Seq<u8>>, StoreError>(Some(current@)));
        assert(at + 8 + current@.len() <= table@.len());
        let value_at: usize = at + 8 + current.len();
        let value: Option<Vec<u8>> = match read_slot(table, value_at) {
            Ok(v) => v,
            Err(e) => {
                return Err(e);
            },
        };
        if key_equal(current.as_slice(), key.as_slice()) {
            return Ok(value);
        }
        match value {
            None => {
                return Ok(None);
            },
            Some(v) => {
                assert(slot_at(table@, value_at as int) == Ok::<Option<Seq<u8>>, StoreError>(
                    Some(v@),
                ));
                assert(value_at + 8 + v@.len() <= table@.len());
                at = value_at + 8 + v.len();
            },
        }
    }
}


/// A table: the pairs one after the other, each as two checked slots.
pub open spec fn table_image(entries: Seq<(Seq<u8>, Seq<u8>)>) -> Seq<u8>
    decreases entries.len(),
{
    if entries.len() == 0 {
        Seq::empty()
    } else {
        table_image(entries.drop_last()) + pair_bytes(entries.last().0, entries.last().1)
    }
}

/// The offset of pair `i` in the table of `entries`.
pub open spec fn table_offset(entries: Seq<(Seq<u8>, Seq<u8>)>, i: int) -> int {
    table_image(entries.subrange(0, i)).len() as int
}

/// The value of the first of the pairs from `i` on whose key is `key`.
pub open spec fn first_from(entries: Seq<(Seq<u8>, Seq<u8>)>, i: int, key: Seq<u8>) -> Option<
    Seq<u8>,
>
    decreases entries.len() - i,
{
    if i < 0 || i >= entries.len() {
        None
    } else if entries[i].0 == key {
        Some(entries[i].1)
    } else {
        first_from(entries, i + 1, key)
    }
}

/// The table of the first `i` pairs is the beginning of the table.
pub proof fn lemma_table_prefix(entries: Seq<(Seq<u8>, Seq<u8>)>, i: int)
    requires
        0 <= i <= entries.len(),
    ensures
        table_offset(entries, i) <= table_image(entries).len(),
        table_image(entries).subrange(0, table_offset(entries, i)) == table_image(
            entries.subrange(0, i),
        ),
        i < entries.len() ==> table_offset(entries, i + 1) == table_offset(entries, i)
            + pair_bytes(entries[i].0, entries[i].1).len() && table_image(
            entries.subrange(0, i + 1),
        ) == table_image(entries.subrange(0, i)) + pair_bytes(entries[i].0, entries[i].1),
    decreases entries.len() - i,
{
    if i == entries.len() {
        assert(entries.subrange(0, i) =~= entries);
        assert(table_image(entries).subrange(0, table_image(entries).len() as int)
            =~= table_image(entries));
    } else {
        lemma_table_prefix(entries, i + 1);
        let longer = entries.subrange(0, i + 1);
        assert(longer.drop_last() =~= entries.subrange(0, i));
        assert(longer.last() == entries[i]);
        let whole = table_image(entries);
        let upto = table_image(entries.subrange(0, i));
        assert(table_image(longer) == upto + pair_bytes(entries[i].0, entries[i].1));
        assert(whole.subrange(0, upto.len() as int) =~= whole.subrange(
            0,
            table_offset(entries, i + 1),
        ).subrange(0, upto.len() as int));
        assert(whole.subrange(0, upto.len() as int) =~= upto);
    }
}

/// Scanning a table from the offset of one of its pairs finds the first
/// pair with the key from there on.
#[verifier::rlimit(50)]
pub proof fn lemma_scan_table(entries: Seq<(Seq<u8>, Seq<u8>)>, i: int, key: Seq<u8>)
    requires
        0 <= i <= entries.len(),
        forall|j: int|
            0 <= j < entries.len() ==> (#[trigger] entries[j]).0.len() <= u32::MAX
                && entries[j].1.len() <= u32::MAX,
    ensures
        scan_from(table_image(entries), table_offset(entries, i), key) == Ok::<
            Option<Seq<u8>>,
            StoreError,
        >(first_from(entries, i, key)),
    decreases entries.len() - i,
{
    lemma_auto_spec_u32_to_from_le_bytes();
    let table = table_image(entries);
    let at = table_offset(entries, i);
    lemma_table_prefix(entries, i);
    if i == entries.len() {
        assert(entries.subrange(0, i) =~= entries);
    } else {
        let k = entries[i].0;
        let v = entries[i].1;
        let ks = k.len() as int;
        let vs = v.len() as int;
        lemma_table_prefix(entries, i + 1);
        lemma_slot_bytes_ok(k);
        lemma_slot_bytes_ok(v);
        let next = table_offset(entries, i + 1);
        assert(next == at + ks + vs + 16);
        let pair = pair_bytes(k, v);
        assert(table.subrange(at, next) =~= pair) by {
            assert(table.subrange(0, next) == table_image(entries.subrange(0, i)) + pair);
            assert(table.subrange(at, next) =~= table.subrange(0, next).subrange(at, next));
        }
        // the key slot
        assert(table.subrange(at, at + 4) =~= slot_bytes(k).subrange(0, 4)) by {
            assert(table.subrange(at, at + 4) =~= pair.subrange(0, 4));
        }
        assert(table.subrange(at + 4, at + 4 + ks) =~= k) by {
            assert(table.subrange(at + 4, at + 4 + ks) =~= pair.subrange(4, 4 + ks));
            assert(pair.subrange(4, 4 + ks) =~= slot_bytes(k).subrange(4, 4 + ks));
        }
        assert(table.subrange(at + 4 + ks, at + 8 + ks) =~= slot_bytes(k).subrange(
            slot_bytes(k).len() - 4,
            slot_bytes(k).len() as int,
        )) by {
            assert(table.subrange(at + 4 + ks, at + 8 + ks) =~= pair.subrange(
                4 + ks,
                8 + ks,
            ));
        }
        assert(slot_at(table, at) == Ok::<Option<Seq<u8>>, StoreError>(Some(k)));
        // the value slot
        let vat = at + 8 + ks;
        assert(table.subrange(vat, vat + 4) =~= slot_bytes(v).subrange(0, 4)) by {
            assert(table.subrange(vat, vat + 4) =~= pair.subrange(8 + ks, 12 + ks));
        }
        assert(table.subrange(vat + 4, vat + 4 + vs) =~= v) by {
            assert(table.subrange(vat + 4, vat + 4 + vs) =~= pair.subrange(
                12 + ks,
                12 + ks + vs,
            ));
            assert(pair.subrange(12 + ks, 12 + ks + vs) =~= slot_bytes(v).subrange(
                4,
                4 + vs,
            ));
        }
        assert(table.subrange(vat + 4 + vs, vat + 8 + vs) =~= slot_bytes(v).subrange(
            slot_bytes(v).len() - 4,
            slot_bytes(v).len() as int,
        )) by {
            assert(table.subrange(vat + 4 + vs, vat + 8 + vs) =~= pair.subrange(
                12 + ks + vs,
                16 + ks + vs,
            ));
        }
        assert(slot_at(table, vat) == Ok::<Option<Seq<u8>>, StoreError>(Some(v)));
        lemma_scan_table(entries, i + 1, key);
    }
}


/// A table with the bytes of its file.
pub struct Table {
    pub info: TableInfo,
    pub data: Vec<u8>,
}

/// What a table is to a lookup.
pub struct TableView {
    pub id: TableId,
    pub size: usize,
    pub level: usize,
    pub admitted: Set<Seq<u8>>,
    pub index: SparseIndexView,
    pub data: Seq<u8>,
}

impl View for Table {
    type V = TableView;

    open spec fn view(&self) -> TableView {
        TableView {
            id: self.info.id,
            size: self.info.size,
            level: self.info.level,
            admitted: bloom_admitted(self.info.filter),
            index: self.info.index@,
            data: self.data@,
        }
    }
}

impl Table {
    /// The filter has the bits it counts and the keys of the index ascend.
    pub open spec fn wf(&self) -> bool {
        bloom_sound(self.info.filter) && self.info.index@.wf()
    }
}

impl TableView {
    /// What a lookup of `key` in this table yields: nothing where the
    /// filter does not let the key pass or the key comes before all indexed
    /// keys, else what a scan from the offset of the index yields.
    pub open spec fn lookup(self, key: Seq<u8>) -> Result<Option<Seq<u8>>, StoreError> {
        if !self.admitted.contains(key) {
            Ok(None)
        } else {
            match self.index.offset_for(key) {
                None => Ok(None),
                Some(offset) => scan_from(self.data, offset as int, key),
            }
        }
    }
}

/// The views of tables.
pub open spec fn table_views(tables: Seq<Table>) -> Seq<TableView> {
    Seq::new(tables.len(), |i: int| tables[i]@)
}

/// What a lookup in the first `upto` tables of a level yields: that of the
/// table with the greatest id that has the key.
pub open spec fn level_lookup(tables: Seq<TableView>, upto: int, key: Seq<u8>) -> Result<
    Option<Seq<u8>>,
    StoreError,
>
    decreases upto,
{
    if upto <= 0 || upto > tables.len() {
        Ok(None)
    } else {
        match tables[upto - 1].lookup(key) {
            Err(e) => Err(e),
            Ok(Some(value)) => Ok(Some(value)),
            Ok(None) => level_lookup(tables, upto - 1, key),
        }
    }
}

/// What a lookup in the levels from `from` on yields: that of the lowest
/// level that has the key.
pub open spec fn levels_lookup(levels: Seq<Seq<TableView>>, from: int, key: Seq<u8>) -> Result<
    Option<Seq<u8>>,
    StoreError,
>
    decreases levels.len() - from,
{
    if from < 0 || from >= levels.len() {
        Ok(None)
    } else {
        match level_lookup(levels[from], levels[from].len() as int, key) {
            Err(e) => Err(e),
            Ok(Some(value)) => Ok(Some(value)),
            Ok(None) => levels_lookup(levels, from + 1, key),
        }
    }
}

/// The tables of a level with `table` among them, in the order of their
/// ids: in place of the table of the same id where there is one.
pub open spec fn level_with(tables: Seq<TableView>, table: TableView) -> Seq<TableView> {
    let at = id_rank(tables, table.id);
    if at < tables.len() && tables[at].id == table.id {
        tables.update(at, table)
    } else {
        tables.insert(at, table)
    }
}

/// The number of tables, counted from the first, whose id is below `id`.
pub open spec fn id_rank(tables: Seq<TableView>, id: TableId) -> int
    decreases tables.len(),
{
    if tables.len() == 0 || tables[0].id >= id {
        0
    } else {
        1 + id_rank(tables.drop_first(), id)
    }
}

proof fn lemma_id_rank_is(tables: Seq<TableView>, id: TableId, i: int)
    requires
        0 <= i <= tables.len(),
        forall|j: int| 0 <= j < i ==> (#[trigger] tables[j]).id < id,
        i < tables.len() ==> tables[i].id >= id,
    ensures
        id_rank(tables, id) == i,
    decreases tables.len(),
{
    if tables.len() == 0 {
    } else if i == 0 {
    } else {
        assert(tables[0].id < id);
        let rest = tables.drop_first();
        assert forall|j: int| 0 <= j < i - 1 implies (#[trigger] rest[j]).id < id by {
            assert(rest[j] == tables[j + 1]);
        }
        lemma_id_rank_is(rest, id, i - 1);
    }
}

/// The levels with `table` registered at its level, which is made with
/// all levels below it where it is missing.
pub open spec fn levels_with(levels: Seq<Seq<TableView>>, table: TableView) -> Seq<Seq<TableView>> {
    let padded = if levels.len() > table.level {
        levels
    } else {
        levels + Seq::new((table.level + 1 - levels.len()) as nat, |i: int| Seq::<TableView>::empty())
    };
    padded.update(table.level as int, level_with(padded[table.level as int], table))
}

/// The tables of all levels: the lower the level, the newer its tables,
/// and within a level the greater the id, the newer the table.
pub struct SstableManager {
    tables: Vec<Vec<Table>>,
}

impl SstableManager {
    /// The tables by level, each level in the order of the ids.
    pub closed spec fn levels(&self) -> Seq<Seq<TableView>> {
        Seq::new(self.tables@.len(), |i: int| table_views(self.tables@[i]@))
    }

    /// Every table is sound, and the tables of each level ascend by id.
    pub closed spec fn wf(&self) -> bool {
        &&& forall|i: int, j: int|
            0 <= i < self.tables@.len() && 0 <= j < self.tables@[i]@.len()
                ==> (#[trigger] self.tables@[i]@[j]).wf()
        &&& self.ascending()
    }

    /// Within each level the ids ascend strictly, so that the last table
    /// of a level is its newest.
    pub open spec fn ascending(&self) -> bool {
        forall|level: int, i: int, j: int|
            0 <= level < self.levels().len() && 0 <= i < j < self.levels()[level].len() ==> (
            #[trigger] self.levels()[level][i]).id < (#[trigger] self.levels()[level][j]).id
    }

    /// The tables of each level of a sound manager ascend by id.
    pub proof fn lemma_ascending(&self)
        requires
            self.wf(),
        ensures
            self.ascending(),
    {
    }

    /// What a lookup of `key` yields.
    pub open spec fn lookup(&self, key: Seq<u8>) -> Result<Option<Seq<u8>>, StoreError> {
        levels_lookup(self.levels(), 0, key)
    }

    /// Every table has an id below `bound`.
    pub open spec fn ids_below(&self, bound: int) -> bool {
        forall|level: int, i: int|
            0 <= level < self.levels().len() && 0 <= i < self.levels()[level].len() ==> (
            #[trigger] self.levels()[level][i]).id < bound
    }

    /// A manager without tables.
    pub fn new() -> (manager: SstableManager)
        ensures
            manager.levels().len() == 0,
            manager.wf(),
            manager.ascending(),
            forall|key: Seq<u8>|
                manager.lookup(key) == Ok::<Option<Seq<u8>>, StoreError>(None),
    {
        SstableManager { tables: Vec::new() }
    }

    /// How many levels there are.
    pub fn level_count(&self) -> (count: usize)
        ensures
            count == self.levels().len(),
    {
        self.tables.len()
    }

    /// The ids of the tables of `level`, ascending.
    pub fn table_ids(&self, level: usize) -> (ids: Vec<TableId>)
        requires
            level < self.levels().len(),
        ensures
            ids@.len() == self.levels()[level as int].len(),
            forall|i: int| 0 <= i < ids@.len() ==> ids@[i] == self.levels()[level as int][i].id,
    {
        let mut ids: Vec<TableId> = Vec::new();
        let mut i: usize = 0;
        while i < self.tables[level].len()
            invariant
                level < self.tables@.len(),
                i <= self.tables@[level as int]@.len(),
                ids@.len() == i,
                forall|k: int| 0 <= k < i ==> ids@[k] == self.tables@[level as int]@[k].info.id,
            decreases self.tables@[level as int]@.len() - i,
        {
            ids.push(self.tables[level][i].info.id);
            i = i + 1;
        }
        ids
    }

    /// Makes the levels up to `level` where they are missing.
    fn pad_levels(&mut self, level: usize)
        requires
            old(self).wf(),
        ensures
            final(self).wf(),
            final(self).tables@.len() > level,
            final(self).levels() == (if old(self).levels().len() > level {
                old(self).levels()
            } else {
                old(self).levels() + Seq::new(
                    (level + 1 - old(self).levels().len()) as nat,
                    |i: int| Seq::<TableView>::empty(),
                )
            }),
    {
        while self.tables.len() <= level
            invariant
                self.wf(),
                self.tables@.len() >= old(self).tables@.len(),
                forall|i: int|
                    0 <= i < old(self).tables@.len() ==> self.tables@[i] == old(self).tables@[i],
                forall|i: int|
                    old(self).tables@.len() <= i < self.tables@.len() ==> (
                    #[trigger] self.tables@[i])@.len() == 0,
                old(self).tables@.len() > level ==> self.tables@.len() == old(self).tables@.len(),
                old(self).tables@.len() <= level ==> self.tables@.len() <= level + 1,
            decreases level + 1 - self.tables@.len(),
        {
            let ghost rows = self.levels();
            self.tables.push(Vec::new());
            proof {
                assert forall|level: int, i: int, j: int|
                    0 <= level < self.levels().len() && 0 <= i < j < self.levels()[level].len()
                        implies (#[trigger] self.levels()[level][i]).id < (
                    #[trigger] self.levels()[level][j]).id by {
                    assert(self.levels()[level] == rows[level]);
                }
            }
        }
        proof {
            let expected = if old(self).levels().len() > level {
                old(self).levels()
            } else {
                old(self).levels() + Seq::new(
                    (level + 1 - old(self).levels().len()) as nat,
                    |i: int| Seq::<TableView>::empty(),
                )
            };
            assert forall|i: int| 0 <= i < self.tables@.len() implies self.levels()[i]
                == expected[i] by {
                if i >= old(self).tables@.len() {
                    assert(self.tables@[i]@.len() == 0);
                    assert(table_views(self.tables@[i]@) =~= Seq::<TableView>::empty());
                }
            }
            assert(self.levels() =~= expected);
        }
    }

    /// The table `id` of `level`, where there is one.
    pub fn get_table(&self, level: usize, id: TableId) -> (table: Option<&Table>)
        ensures
            match table {
                Some(table) => level < self.levels().len() && exists|i: int|
                    0 <= i < self.levels()[level as int].len() && #[trigger] self.levels()[level as int][i]
                        == table@ && table@.id == id,
                None => level >= self.levels().len() || forall|i: int|
                    0 <= i < self.levels()[level as int].len() ==> (
                    #[trigger] self.levels()[level as int][i]).id != id,
            },
    {
        if level >= self.tables.len() {
            return None;
        }
        let mut i: usize = 0;
        while i < self.tables[level].len()
            invariant
                level < self.tables@.len(),
                i <= self.tables@[level as int]@.len(),
                forall|k: int| 0 <= k < i ==> (#[trigger] self.levels()[level as int][k]).id != id,
            decreases self.tables@[level as int]@.len() - i,
        {
            if self.tables[level][i].info.id == id {
                assert(self.levels()[level as int][i as int] == self.tables@[level as int]@[i as int]@);
                return Some(&self.tables[level][i]);
            }
            i = i + 1;
        }
        None
    }

    /// Registers a table at its level, in place of the table of the same id
    /// where the level has one.
    #[verifier::rlimit(50)]
    pub fn register(&mut self, table_info: TableInfo, data: Vec<u8>)
        requires
            old(self).wf(),
            bloom_sound(table_info.filter),
            table_info.index@.wf(),
        ensures
            final(self).wf(),
            final(self).ascending(),
            final(self).levels() == levels_with(
                old(self).levels(),
                (Table { info: table_info, data })@,
            ),
    {
        let level: usize = table_info.level;
        let id: TableId = table_info.id;
        let ghost view = (Table { info: table_info, data })@;
        self.pad_levels(level);
        let ghost padded = self.levels();
        let ghost tables_before = self.tables@;
        let mut at: usize = 0;
        while at < self.tables[level].len() && self.tables[level][at].info.id < id
            invariant
                level < self.tables@.len(),
                self.tables@ == tables_before,
                at <= self.tables@[level as int]@.len(),
                forall|j: int|
                    0 <= j < at ==> (#[trigger] table_views(self.tables@[level as int]@)[j]).id < id,
            decreases self.tables@[level as int]@.len() - at,
        {
            at = at + 1;
        }
        let ghost row = table_views(self.tables@[level as int]@);
        proof {
            lemma_id_rank_is(row, id, at as int);
        }
        let table = Table { info: table_info, data };
        if at < self.tables[level].len() && self.tables[level][at].info.id == id {
            self.tables[level][at] = table;
            assert(table_views(self.tables@[level as int]@) =~= row.update(at as int, view));
        } else {
            self.tables[level].insert(at, table);
            assert(table_views(self.tables@[level as int]@) =~= row.insert(at as int, view));
        }
        proof {
            let new_row = table_views(self.tables@[level as int]@);
            assert forall|i: int, j: int| 0 <= i < j < new_row.len() implies new_row[i].id
                < new_row[j].id by {
                assert forall|x: int, y: int| 0 <= x < y < row.len() implies row[x].id
                    < row[y].id by {
                    assert(padded[level as int][x].id < padded[level as int][y].id);
                }
                if at < row.len() && row[at as int].id == id {
                    if i != at && j != at {
                        assert(row[i].id < row[j].id);
                    } else if i == at {
                        assert(row[at as int].id < row[j].id);
                    } else {
                        assert(row[i].id < id);
                    }
                } else {
                    if j < at {
                        assert(row[i].id < row[j].id);
                    } else if j == at {
                        assert(row[i].id < id);
                    } else if i < at {
                        assert(row[i].id < row[j - 1].id);
                    } else if i == at {
                        if at < j - 1 {
                            assert(row[at as int].id < row[j - 1].id);
                        }
                        assert(row[at as int].id >= id);
                    } else {
                        assert(row[i - 1].id < row[j - 1].id);
                    }
                }
            }
            assert(self.levels() =~= padded.update(level as int, level_with(row, view))) by {
                assert forall|i: int| 0 <= i < self.tables@.len() implies self.levels()[i]
                    == padded.update(level as int, level_with(row, view))[i] by {
                    if i != level {
                        assert(self.tables@[i] == tables_before[i]);
                    }
                }
            }
        }
    }
}


impl SstableManager {
    /// The value of `key` in the newest table that has the key: levels are
    /// asked from the lowest on, the tables of a level from the greatest id
    /// down.
    #[verifier::rlimit(50)]
    pub fn get(&self, key: &[u8]) -> (res: Result<Option<Vec<u8>>, StoreError>)
        requires
            self.wf(),
        ensures
            match (res, self.lookup(key@)) {
                (Ok(Some(value)), Ok(Some(expected))) => value@ == expected,
                (Ok(None), Ok(None)) => true,
                (Err(e), Err(expected)) => e == expected,
                _ => false,
            },
    {
        let key_vec: Vec<u8> = slice_to_vec(key);
        let mut level: usize = 0;
        while level < self.tables.len()
            invariant
                self.wf(),
                key_vec@ == key@,
                level <= self.tables@.len(),
                levels_lookup(self.levels(), level as int, key@) == levels_lookup(
                    self.levels(),
                    0,
                    key@,
                ),
            decreases self.tables@.len() - level,
        {
            let ghost row = self.levels()[level as int];
            let mut upto: usize = self.tables[level].len();
            while upto > 0
                invariant
                    self.wf(),
                    key_vec@ == key@,
                    level < self.tables@.len(),
                    row == table_views(self.tables@[level as int]@),
                    upto <= row.len(),
                    level_lookup(row, upto as int, key@) == level_lookup(
                        row,
                        row.len() as int,
                        key@,
                    ),
                    levels_lookup(self.levels(), level as int, key@) == levels_lookup(
                        self.levels(),
                        0,
                        key@,
                    ),
                decreases upto,
            {
                let table: &Table = &self.tables[level][upto - 1];
                assert(table.wf());
                assert(row[upto - 1] == table@);
                if bloom_check(&table.info.filter, &key_vec) {
                    match table.info.index.find(key) {
                        Some(offset) => {
                            match get_from_table(&table.data, &key_vec, offset) {
                                Ok(Some(value)) => {
                                    return Ok(Some(value));
                                },
                                Ok(None) => {},
                                Err(e) => {
                                    return Err(e);
                                },
                            }
                        },
                        None => {},
                    }
                }
                upto = upto - 1;
            }
            level = level + 1;
        }
        Ok(None)
    }
}

/// The id of the next table after the tables of these ids: the smallest
/// even number above all of them, `None` where there is none.
pub fn next_table_id(ids: &Vec<TableId>) -> (next: Option<TableId>)
    ensures
        match next {
            Some(next) => {
                &&& next % 2 == 0
                &&& forall|i: int| 0 <= i < ids@.len() ==> ids@[i] < next
                &&& next == 0 || exists|i: int| 0 <= i < ids@.len() && next <= ids@[i] + 2
            },
            None => exists|i: int| 0 <= i < ids@.len() && ids@[i] >= usize::MAX - 1,
        },
{
    let mut next: TableId = 0;
    let mut i: usize = 0;
    while i < ids.len()
        invariant
            i <= ids@.len(),
            next % 2 == 0,
            forall|k: int| 0 <= k < i ==> ids@[k] < next,
            next == 0 || exists|k: int| 0 <= k < i && next <= ids@[k] + 2,
        decreases ids@.len() - i,
    {
        let table_id: TableId = ids[i];
        if next <= table_id {
            if table_id >= usize::MAX - 1 {
                return None;
            }
            next = (table_id / 2 + 1) * 2;
        }
        i = i + 1;
    }
    Some(next)
}

/// One record of the log of table infos: the encoded info as a checked
/// slot.
pub fn frame_record(encoded: &Vec<u8>) -> (record: Vec<u8>)
    requires
        encoded@.len() <= u32::MAX,
    ensures
        record@ == slot_bytes(encoded@),
{
    let mut record: Vec<u8> = Vec::new();
    let crc: u32 = calc_crc(encoded);
    append_slot(&mut record, encoded, crc);
    record
}

/// The payloads of the records of a log from `at` on: a record that fails
/// its checksum is skipped, and the log ends where no whole record is left.
pub open spec fn records_from(log: Seq<u8>, at: int) -> Seq<Seq<u8>>
    decreases log.len() - at,
{
    if at < 0 || at + 8 > log.len() {
        Seq::empty()
    } else {
        let size = spec_u32_from_le_bytes(log.subrange(at, at + 4)) as int;
        if at + 8 + size > log.len() {
            Seq::empty()
        } else {
            match slot_at(log, at) {
                Ok(Some(payload)) => seq![payload] + records_from(log, at + 8 + size),
                _ => records_from(log, at + 8 + size),
            }
        }
    }
}

/// The payloads of the records of a log whose checksum holds, in order.
pub fn parse_records(log: &Vec<u8>) -> (records: Vec<Vec<u8>>)
    ensures
        records@.len() == records_from(log@, 0).len(),
        forall|i: int| 0 <= i < records@.len() ==> records@[i]@ == records_from(log@, 0)[i],
{
    let total: usize = log.len();
    let mut records: Vec<Vec<u8>> = Vec::new();
    let mut at: usize = 0;
    let ghost mut found: Seq<Seq<u8>> = Seq::empty();
    loop
        invariant
            at <= log@.len(),
            total == log@.len(),
            records@.len() == found.len(),
            forall|i: int| 0 <= i < records@.len() ==> records@[i]@ == found[i],
            records_from(log@, 0) == found + records_from(log@, at as int),
        decreases log@.len() - at,
    {
        if total - at < 8 {
            assert(found + Seq::<Seq<u8>>::empty() =~= found);
            return records;
        }
        let size: usize = u32_from_le_bytes(slice_subrange(log.as_slice(), at, at + 4)) as usize;
        if size > total - at - 8 {
            assert(found + Seq::<Seq<u8>>::empty() =~= found);
            return records;
        }
        match read_slot(log, at) {
            Ok(Some(payload)) => {
                proof {
                    let rest = records_from(log@, at + 8 + size);
                    assert(found + (seq![payload@] + rest) =~= found.push(payload@) + rest);
                    found = found.push(payload@);
                }
                records.push(payload);
            },
            _ => {},
        }
        at = at + 8 + size;
    }
}


/// A lookup in the first tables of a level does not ask the others.
pub proof fn lemma_level_lookup_prefix(
    a: Seq<TableView>,
    b: Seq<TableView>,
    upto: int,
    key: Seq<u8>,
)
    requires
        0 <= upto <= a.len(),
        upto <= b.len(),
        forall|i: int| 0 <= i < upto ==> a[i] == b[i],
    ensures
        level_lookup(a, upto, key) == level_lookup(b, upto, key),
    decreases upto,
{
    if upto > 0 {
        lemma_level_lookup_prefix(a, b, upto - 1, key);
    }
}

/// A lookup in the levels from `from` on does not ask the levels below.
pub proof fn lemma_levels_lookup_suffix(
    a: Seq<Seq<TableView>>,
    b: Seq<Seq<TableView>>,
    from: int,
    key: Seq<u8>,
)
    requires
        0 <= from,
        a.len() == b.len() || (a.len() <= from && b.len() <= from),
        forall|i: int| from <= i < a.len() && i < b.len() ==> a[i] == b[i],
    ensures
        levels_lookup(a, from, key) == levels_lookup(b, from, key),
    decreases a.len() - from,
{
    if from < a.len() && from < b.len() {
        lemma_levels_lookup_suffix(a, b, from + 1, key);
    }
}

/// A table registered at level 0 with an id above all ids is asked first,
/// and the tables that were there are asked after it as before.
#[verifier::rlimit(50)]
pub proof fn lemma_register_newest(levels: Seq<Seq<TableView>>, table: TableView, key: Seq<u8>)
    requires
        table.level == 0,
        levels.len() > 0 ==> forall|i: int|
            0 <= i < levels[0].len() ==> (#[trigger] levels[0][i]).id < table.id,
    ensures
        levels_lookup(levels_with(levels, table), 0, key) == (match table.lookup(key) {
            Err(e) => Err(e),
            Ok(Some(value)) => Ok(Some(value)),
            Ok(None) => levels_lookup(levels, 0, key),
        }),
{
    let padded = if levels.len() > 0 {
        levels
    } else {
        levels + Seq::new(1, |i: int| Seq::<TableView>::empty())
    };
    let row = padded[0];
    lemma_id_rank_is(row, table.id, row.len() as int);
    let grown = row.insert(row.len() as int, table);
    assert(level_with(row, table) == grown);
    let after = levels_with(levels, table);
    assert(after == padded.update(0, grown));
    assert(grown[grown.len() - 1] == table);
    lemma_level_lookup_prefix(grown, row, row.len() as int, key);
    lemma_levels_lookup_suffix(after, padded, 1, key);
    if levels.len() == 0 {
        assert(levels_lookup(padded, 1, key) == Ok::<Option<Seq<u8>>, StoreError>(None));
        assert(level_lookup(row, 0, key) == Ok::<Option<Seq<u8>>, StoreError>(None));
    }
}


/// The ids of the tables after one was registered are those from before
/// and its own.
#[verifier::rlimit(50)]
pub proof fn lemma_ids_after_register(levels: Seq<Seq<TableView>>, table: TableView, bound: int)
    requires
        table.id < bound,
        forall|level: int, i: int|
            0 <= level < levels.len() && 0 <= i < levels[level].len() ==> (
            #[trigger] levels[level][i]).id < bound,
    ensures
        forall|level: int, i: int|
            0 <= level < levels_with(levels, table).len() && 0 <= i < levels_with(
                levels,
                table,
            )[level].len() ==> (#[trigger] levels_with(levels, table)[level][i]).id < bound,
{
    let padded = if levels.len() > table.level {
        levels
    } else {
        levels + Seq::new((table.level + 1 - levels.len()) as nat, |i: int| Seq::<TableView>::empty())
    };
    let row = padded[table.level as int];
    let at = id_rank(row, table.id);
    lemma_id_rank_bounds(row, table.id);
    let after = levels_with(levels, table);
    assert forall|level: int, i: int|
        0 <= level < after.len() && 0 <= i < after[level].len() implies (
    #[trigger] after[level][i]).id < bound by {
        if level == table.level {
            let grown = level_with(row, table);
            if at < row.len() && row[at].id == table.id {
                if i != at {
                    assert(grown[i] == row[i]);
                    if level < levels.len() {
                        assert(levels[level][i].id < bound);
                    }
                }
            } else {
                if i < at {
                    assert(grown[i] == row[i]);
                    if level < levels.len() {
                        assert(levels[level][i].id < bound);
                    }
                } else if i > at {
                    assert(grown[i] == row[i - 1]);
                    if level < levels.len() {
                        assert(levels[level][i - 1].id < bound);
                    }
                }
            }
        } else {
            assert(after[level] == padded[level]);
            if level < levels.len() {
                assert(levels[level][i].id < bound);
            }
        }
    }
}

proof fn lemma_id_rank_bounds(tables: Seq<TableView>, id: TableId)
    ensures
        0 <= id_rank(tables, id) <= tables.len(),
    decreases tables.len(),
{
    if tables.len() == 0 || tables[0].id >= id {
    } else {
        lemma_id_rank_bounds(tables.drop_first(), id);
    }
}

} // verus!
