pub mod types;

use crate::amphis_error::StoreError;
use crate::fptree::leaf_manager::types::{
    fresh_header,
    header_bytes,
    header_page_bytes,
    lemma_header_bytes_parts,
    LeafHeader,
    END_TAIL_OFFSET,
    HEADER_MAGIC,
    INVALID_LEAF_ID,
    LEAF_HEADER_SIZE,
    LEAF_SIZE,
    LEN_HEADER_BODY,
    LEN_HEADER_MAGIC,
    NUM_ALLOCATION,
};
use crate::util::data_util::{
    check_header_crc, check_slot_crc, copy_range, format_data_with_crc, lemma_slot_bytes_ok,
    lemma_trailing_crc_ok, pair_bytes, round_up, round_up_size, slot_bytes, slot_ok, splice,
    trailing_crc_ok, with_trailing_crc, write_at,
};
use std::collections::VecDeque;
use vstd::bytes::{
    lemma_auto_spec_u32_to_from_le_bytes, spec_u32_from_le_bytes, spec_u32_to_le_bytes,
    u32_from_le_bytes,
};
use vstd::prelude::*;
use vstd::slice::slice_subrange;

verus! {

/// Owns the bytes of the leaf file of one tree generation: hands out
/// pages, keeps their headers, and reads and writes pairs in their data
/// arenas.
pub struct LeafManager {
    data: Vec<u8>,
    free_leaves: VecDeque<usize>,
    header_mmap: Vec<bool>,
}

/// What a manager holds: the bytes of the leaf file, the pages waiting to be
/// handed out, and for each page whether its header is in use.
pub struct LeafManagerView {
    pub data: Seq<u8>,
    pub free: Seq<usize>,
    pub mapped: Seq<bool>,
}

impl LeafManagerView {
    pub open spec fn is_mapped(self, id: int) -> bool {
        0 <= id < self.mapped.len() && self.mapped[id]
    }

    /// The file holds the pages; a page id fits the header fields; the
    /// waiting pages exist, are not in use and wait once.
    pub open spec fn wf(self) -> bool {
        &&& self.mapped.len() * 1048576 <= self.data.len() < (self.mapped.len() + 1) * 1048576
        &&& self.mapped.len() < 0xFFFF_FFFF
        &&& forall|i: int|
            0 <= i < self.free.len() ==> (#[trigger] self.free[i]) < self.mapped.len()
                && !self.mapped[self.free[i] as int]
        &&& forall|i: int, j: int| 0 <= i < j < self.free.len() ==> self.free[i] != self.free[j]
    }

    /// The encoded fields of the header of page `id`.
    pub open spec fn header_region(self, id: int) -> Seq<u8> {
        self.data.subrange(id * 1048576, id * 1048576 + 564)
    }

    /// The encoded header of page `id` with its checksum.
    pub open spec fn header_page_region(self, id: int) -> Seq<u8> {
        self.data.subrange(id * 1048576, id * 1048576 + 568)
    }

    pub open spec fn page_magic(self, id: int) -> u32 {
        spec_u32_from_le_bytes(self.data.subrange(id * 1048576, id * 1048576 + 4))
    }

    /// The `next` field of the header of page `id`.
    pub open spec fn page_next(self, id: int) -> Option<usize> {
        let raw = spec_u32_from_le_bytes(
            self.data.subrange(id * 1048576 + 8, id * 1048576 + 12),
        );
        if raw == INVALID_LEAF_ID {
            None
        } else {
            Some(raw as usize)
        }
    }

    /// The `ext` field of the header of page `id`.
    pub open spec fn page_ext(self, id: int) -> Option<usize> {
        let raw = spec_u32_from_le_bytes(
            self.data.subrange(id * 1048576 + 12, id * 1048576 + 16),
        );
        if raw == INVALID_LEAF_ID {
            None
        } else {
            Some(raw as usize)
        }
    }

    /// Page `id` holds the encoding of `h`.
    pub open spec fn holds_header(self, id: int, h: LeafHeader) -> bool {
        header_bytes(h) == self.header_region(id)
    }

    /// The state after `h` was committed to page `id`.
    pub open spec fn with_header(self, id: int, h: LeafHeader) -> LeafManagerView {
        LeafManagerView { data: splice(self.data, id * 1048576, header_page_bytes(h)), ..self }
    }

    /// The state after a pair was written to page `id` at `offset`.
    pub open spec fn with_pair(
        self,
        id: int,
        offset: int,
        key: Seq<u8>,
        value: Seq<u8>,
    ) -> LeafManagerView {
        LeafManagerView {
            data: splice(self.data, id * 1048576 + offset, pair_bytes(key, value)),
            ..self
        }
    }

    /// Whether the file can grow by one group of pages.
    pub open spec fn can_grow(self) -> bool {
        &&& self.data.len() + 16 * 1048576 <= usize::MAX
        &&& self.mapped.len() + 16 < 0xFFFF_FFFF
    }

    /// The state after the file grew by one group of zeroed pages, all of
    /// them waiting in ascending order.
    pub open spec fn grown(self) -> LeafManagerView {
        let first = self.mapped.len() as int;
        LeafManagerView {
            data: self.data + Seq::new(16 * 1048576, |i: int| 0u8),
            free: self.free + Seq::new(16, |i: int| (first + i) as usize),
            mapped: self.mapped + Seq::new(16, |i: int| false),
        }
    }

    /// The state in which a page waits: this one, or this one grown.
    pub open spec fn refilled(self) -> LeafManagerView {
        if self.free.len() == 0 {
            self.grown()
        } else {
            self
        }
    }

    /// Whether a page can be handed out.
    pub open spec fn can_take(self) -> bool {
        self.free.len() > 0 || self.can_grow()
    }

    /// Whether the file can still grow by `groups` groups of pages.
    pub open spec fn room(self, groups: int) -> bool {
        &&& self.data.len() + groups * 16777216 <= usize::MAX
        &&& self.mapped.len() + groups * 16 < 0xFFFF_FFFF
    }

    /// Whether the file has at most `groups` groups of pages more than it
    /// had in `before`.
    pub open spec fn grew_from(self, before: LeafManagerView, groups: int) -> bool {
        &&& self.data.len() <= before.data.len() + groups * 16777216
        &&& self.mapped.len() <= before.mapped.len() + groups * 16
    }

    /// The page that is handed out next.
    pub open spec fn next_free(self) -> usize {
        self.refilled().free[0]
    }

    /// The state after the next page was handed out.
    pub open spec fn after_take(self) -> LeafManagerView {
        let r = self.refilled();
        LeafManagerView {
            data: r.data,
            free: r.free.subrange(1, r.free.len() as int),
            mapped: r.mapped.update(r.free[0] as int, true),
        }
    }
}


impl LeafManagerView {
    /// Whether the pair region of these sizes at `offset` of page `id` lies
    /// inside the file.
    pub open spec fn readable(self, id: int, offset: int, key_size: int, value_size: int) -> bool {
        id * 1048576 + offset + key_size + value_size + 16 <= self.data.len()
    }

    /// The bytes of the pair region of these sizes at `offset` of page `id`.
    pub open spec fn pair_region(
        self,
        id: int,
        offset: int,
        key_size: int,
        value_size: int,
    ) -> Seq<u8> {
        self.data.subrange(
            id * 1048576 + offset,
            id * 1048576 + offset + key_size + value_size + 16,
        )
    }

    /// What reading a pair of these sizes at `offset` of page `id` yields:
    /// both slots must pass verification, then the payloads are taken by the
    /// sizes given.
    pub open spec fn read_result(
        self,
        id: int,
        offset: int,
        key_size: int,
        value_size: int,
    ) -> Result<(Seq<u8>, Seq<u8>), StoreError> {
        if !self.readable(id, offset, key_size, value_size) {
            Err(StoreError::OutOfRange)
        } else {
            let region = self.pair_region(id, offset, key_size, value_size);
            if !slot_ok(region.subrange(0, key_size + 8)) || !slot_ok(
                region.subrange(key_size + 8, region.len() as int),
            ) {
                Err(StoreError::CrcMismatch)
            } else {
                Ok(
                    (
                        region.subrange(4, 4 + key_size),
                        region.subrange(key_size + 12, key_size + 12 + value_size),
                    ),
                )
            }
        }
    }

    /// The header of page `id` has the magic number and a valid checksum.
    pub open spec fn recoverable(self, id: int) -> bool {
        page_recoverable(self.data, id)
    }

    /// The leaves from `from` on along the `next` fields of their headers,
    /// up to the first page whose header is not in use; `None` where
    /// `fuel` steps do not lead to the end.
    pub open spec fn leaf_chain(self, from: int, fuel: nat) -> Option<Seq<usize>>
        decreases fuel,
    {
        if !self.is_mapped(from) {
            Some(Seq::empty())
        } else if fuel == 0 {
            None
        } else {
            match self.page_next(from) {
                None => Some(seq![from as usize]),
                Some(next) => match self.leaf_chain(next as int, (fuel - 1) as nat) {
                    Some(rest) => Some(seq![from as usize] + rest),
                    None => None,
                },
            }
        }
    }

    /// The last page along the `ext` fields from `from` on; `None` where a
    /// page without a header in use is met or the steps run out.
    pub open spec fn ext_tail(self, from: int, fuel: nat) -> Option<usize>
        decreases fuel,
    {
        if fuel == 0 || !self.is_mapped(from) {
            None
        } else {
            match self.page_ext(from) {
                None => Some(from as usize),
                Some(ext) => self.ext_tail(ext as int, (fuel - 1) as nat),
            }
        }
    }

    /// The state after the `ext` field of the header of page `tail` was set
    /// to `ext_id` and the header's checksum renewed.
    pub open spec fn linked(self, tail: int, ext_id: usize) -> LeafManagerView {
        LeafManagerView {
            data: splice(
                self.data,
                tail * 1048576,
                with_trailing_crc(
                    splice(self.header_region(tail), 12, spec_u32_to_le_bytes(ext_id as u32)),
                ),
            ),
            ..self
        }
    }
}

impl LeafManagerView {
    /// Page `p` holds the same bytes in both states.
    pub open spec fn same_page(self, other: LeafManagerView, p: int) -> bool {
        &&& (p + 1) * 1048576 <= self.data.len()
        &&& (p + 1) * 1048576 <= other.data.len()
        &&& self.data.subrange(p * 1048576, (p + 1) * 1048576) == other.data.subrange(
            p * 1048576,
            (p + 1) * 1048576,
        )
    }

    /// The data arena of page `p` holds the same bytes in both states up
    /// to the offset `upto`.
    pub open spec fn same_arena(self, other: LeafManagerView, p: int, upto: int) -> bool {
        &&& 4096 <= upto
        &&& p * 1048576 + upto <= self.data.len()
        &&& p * 1048576 + upto <= other.data.len()
        &&& self.data.subrange(p * 1048576 + 4096, p * 1048576 + upto) == other.data.subrange(
            p * 1048576 + 4096,
            p * 1048576 + upto,
        )
    }
}

/// A pair below `upto` in an arena that kept its bytes reads as before.
pub proof fn lemma_read_same_arena(
    a: LeafManagerView,
    b: LeafManagerView,
    p: int,
    upto: int,
    offset: int,
    key_size: int,
    value_size: int,
)
    requires
        0 <= p,
        a.same_arena(b, p, upto),
        4096 <= offset,
        0 <= key_size,
        0 <= value_size,
        offset + key_size + value_size + 16 <= upto,
    ensures
        b.read_result(p, offset, key_size, value_size) == a.read_result(
            p,
            offset,
            key_size,
            value_size,
        ),
        a.read_result(p, offset, key_size, value_size) != Err::<(Seq<u8>, Seq<u8>), StoreError>(
            StoreError::OutOfRange,
        ),
{
    let x = a.data.subrange(p * 1048576 + 4096, p * 1048576 + upto);
    let y = b.data.subrange(p * 1048576 + 4096, p * 1048576 + upto);
    let size = key_size + value_size + 16;
    assert(a.pair_region(p, offset, key_size, value_size) =~= x.subrange(
        offset - 4096,
        offset - 4096 + size,
    ));
    assert(b.pair_region(p, offset, key_size, value_size) =~= y.subrange(
        offset - 4096,
        offset - 4096 + size,
    ));
}

/// Bytes written outside an arena, or at `upto` and beyond, keep it.
pub proof fn lemma_splice_keeps_arena(
    v: LeafManagerView,
    at: int,
    bytes: Seq<u8>,
    p: int,
    upto: int,
)
    requires
        0 <= at,
        at + bytes.len() <= v.data.len(),
        0 <= p,
        4096 <= upto,
        p * 1048576 + upto <= v.data.len(),
        at + bytes.len() <= p * 1048576 + 4096 || p * 1048576 + upto <= at,
    ensures
        v.same_arena(LeafManagerView { data: splice(v.data, at, bytes), ..v }, p, upto),
{
    let w = LeafManagerView { data: splice(v.data, at, bytes), ..v };
    assert(v.data.subrange(p * 1048576 + 4096, p * 1048576 + upto) =~= w.data.subrange(
        p * 1048576 + 4096,
        p * 1048576 + upto,
    ));
}

/// Bytes written outside a page keep it.
pub proof fn lemma_splice_keeps_page(v: LeafManagerView, at: int, bytes: Seq<u8>, p: int)
    requires
        0 <= at,
        at + bytes.len() <= v.data.len(),
        0 <= p,
        (p + 1) * 1048576 <= v.data.len(),
        at + bytes.len() <= p * 1048576 || (p + 1) * 1048576 <= at,
    ensures
        v.same_page(LeafManagerView { data: splice(v.data, at, bytes), ..v }, p),
{
    let w = LeafManagerView { data: splice(v.data, at, bytes), ..v };
    assert(v.data.subrange(p * 1048576, (p + 1) * 1048576) =~= w.data.subrange(
        p * 1048576,
        (p + 1) * 1048576,
    ));
}

/// A page that kept its bytes kept its header and its arena.
#[verifier::rlimit(50)]
pub proof fn lemma_same_page(a: LeafManagerView, b: LeafManagerView, p: int)
    requires
        0 <= p,
        a.same_page(b, p),
    ensures
        a.same_arena(b, p, 1048576),
        a.header_region(p) == b.header_region(p),
        a.header_page_region(p) == b.header_page_region(p),
        a.page_magic(p) == b.page_magic(p),
        a.page_next(p) == b.page_next(p),
        a.page_ext(p) == b.page_ext(p),
{
    let x = a.data.subrange(p * 1048576, (p + 1) * 1048576);
    let y = b.data.subrange(p * 1048576, (p + 1) * 1048576);
    assert(a.data.subrange(p * 1048576 + 4096, p * 1048576 + 1048576) =~= x.subrange(
        4096,
        1048576,
    ));
    assert(b.data.subrange(p * 1048576 + 4096, p * 1048576 + 1048576) =~= y.subrange(
        4096,
        1048576,
    ));
    assert(a.header_region(p) =~= x.subrange(0, 564));
    assert(b.header_region(p) =~= y.subrange(0, 564));
    assert(a.header_page_region(p) =~= x.subrange(0, 568));
    assert(b.header_page_region(p) =~= y.subrange(0, 568));
    assert(a.data.subrange(p * 1048576, p * 1048576 + 4) =~= x.subrange(0, 4));
    assert(b.data.subrange(p * 1048576, p * 1048576 + 4) =~= y.subrange(0, 4));
    assert(a.data.subrange(p * 1048576 + 8, p * 1048576 + 12) =~= x.subrange(8, 12));
    assert(b.data.subrange(p * 1048576 + 8, p * 1048576 + 12) =~= y.subrange(8, 12));
    assert(a.data.subrange(p * 1048576 + 12, p * 1048576 + 16) =~= x.subrange(12, 16));
    assert(b.data.subrange(p * 1048576 + 12, p * 1048576 + 16) =~= y.subrange(12, 16));
}

/// The header of page `id` of a leaf file has the magic number and a valid
/// checksum.
pub open spec fn page_recoverable(data: Seq<u8>, id: int) -> bool {
    &&& spec_u32_from_le_bytes(data.subrange(id * 1048576, id * 1048576 + 4)) == HEADER_MAGIC
    &&& trailing_crc_ok(data.subrange(id * 1048576, id * 1048576 + 568))
}

/// The pages below `n` of a leaf file that are not recoverable, ascending.
pub open spec fn unrecovered_pages(data: Seq<u8>, n: nat) -> Seq<usize>
    decreases n,
{
    if n == 0 {
        Seq::empty()
    } else if page_recoverable(data, n - 1) {
        unrecovered_pages(data, (n - 1) as nat)
    } else {
        unrecovered_pages(data, (n - 1) as nat).push((n - 1) as usize)
    }
}

/// Whether a pair of these sizes fits into a page from `offset` on.
pub open spec fn fits_page(offset: int, key_size: int, value_size: int) -> bool {
    offset + round_up(key_size + value_size + 16) <= 1044480
}

/// The fields of a header as they are read from its page.
pub proof fn lemma_header_fields(v: LeafManagerView, id: int, h: LeafHeader)
    requires
        0 <= id,
        id * 1048576 + 564 <= v.data.len(),
        v.holds_header(id, h),
    ensures
        v.page_magic(id) == h.magic,
        v.page_next(id) == h.spec_next(),
        v.page_ext(id) == h.spec_ext(),
{
    lemma_auto_spec_u32_to_from_le_bytes();
    lemma_header_bytes_parts(h);
    let region = v.header_region(id);
    assert(region.subrange(0, 4) =~= v.data.subrange(id * 1048576, id * 1048576 + 4));
    assert(region.subrange(8, 12) =~= v.data.subrange(id * 1048576 + 8, id * 1048576 + 12));
    assert(region.subrange(12, 16) =~= v.data.subrange(id * 1048576 + 12, id * 1048576 + 16));
}

/// A committed header is the one its page holds, and it is recoverable
/// when it carries the magic number.
pub proof fn lemma_header_after_commit(v: LeafManagerView, id: int, h: LeafHeader)
    requires
        0 <= id,
        id * 1048576 + 568 <= v.data.len(),
    ensures
        v.with_header(id, h).holds_header(id, h),
        v.with_header(id, h).header_page_region(id) == header_page_bytes(h),
        h.magic == HEADER_MAGIC ==> v.with_header(id, h).recoverable(id),
        v.with_header(id, h).data.len() == v.data.len(),
{
    lemma_auto_spec_u32_to_from_le_bytes();
    lemma_header_bytes_parts(h);
    lemma_trailing_crc_ok(header_bytes(h));
    let w = v.with_header(id, h);
    assert(w.header_page_region(id) =~= header_page_bytes(h));
    assert(w.header_region(id) =~= header_bytes(h));
    lemma_header_fields(w, id, h);
}

/// Bytes written elsewhere leave a header as it was.
pub proof fn lemma_header_unchanged(v: LeafManagerView, at: int, bytes: Seq<u8>, id: int)
    requires
        0 <= at,
        at + bytes.len() <= v.data.len(),
        0 <= id,
        id * 1048576 + 568 <= v.data.len(),
        at + bytes.len() <= id * 1048576 || id * 1048576 + 568 <= at,
    ensures
        (LeafManagerView { data: splice(v.data, at, bytes), ..v }).header_page_region(id)
            == v.header_page_region(id),
        (LeafManagerView { data: splice(v.data, at, bytes), ..v }).header_region(id)
            == v.header_region(id),
        (LeafManagerView { data: splice(v.data, at, bytes), ..v }).page_magic(id) == v.page_magic(
            id,
        ),
        (LeafManagerView { data: splice(v.data, at, bytes), ..v }).page_next(id) == v.page_next(id),
        (LeafManagerView { data: splice(v.data, at, bytes), ..v }).page_ext(id) == v.page_ext(id),
{
    let w = LeafManagerView { data: splice(v.data, at, bytes), ..v };
    assert(w.header_page_region(id) =~= v.header_page_region(id));
    assert(w.header_region(id) =~= v.header_region(id));
    assert(w.data.subrange(id * 1048576, id * 1048576 + 4) =~= v.data.subrange(
        id * 1048576,
        id * 1048576 + 4,
    ));
    assert(w.data.subrange(id * 1048576 + 8, id * 1048576 + 12) =~= v.data.subrange(
        id * 1048576 + 8,
        id * 1048576 + 12,
    ));
    assert(w.data.subrange(id * 1048576 + 12, id * 1048576 + 16) =~= v.data.subrange(
        id * 1048576 + 12,
        id * 1048576 + 16,
    ));
}

/// A pair that was written is the pair that is read at the same place.
#[verifier::rlimit(50)]
pub proof fn lemma_read_after_write(
    v: LeafManagerView,
    id: int,
    offset: int,
    key: Seq<u8>,
    value: Seq<u8>,
)
    requires
        0 <= id,
        0 <= offset,
        key.len() <= u32::MAX,
        value.len() <= u32::MAX,
        v.readable(id, offset, key.len() as int, value.len() as int),
    ensures
        v.with_pair(id, offset, key, value).read_result(
            id,
            offset,
            key.len() as int,
            value.len() as int,
        ) == Ok::<(Seq<u8>, Seq<u8>), StoreError>((key, value)),
        v.with_pair(id, offset, key, value).data.len() == v.data.len(),
{
    lemma_slot_bytes_ok(key);
    lemma_slot_bytes_ok(value);
    let w = v.with_pair(id, offset, key, value);
    let ks = key.len() as int;
    let vs = value.len() as int;
    let region = w.pair_region(id, offset, ks, vs);
    assert(pair_bytes(key, value).len() == ks + vs + 16);
    assert(region =~= pair_bytes(key, value));
    assert(region.subrange(0, ks + 8) =~= slot_bytes(key));
    assert(region.subrange(ks + 8, region.len() as int) =~= slot_bytes(value));
    assert(region.subrange(4, 4 + ks) =~= slot_bytes(key).subrange(4, 4 + ks));
    assert(region.subrange(ks + 12, ks + 12 + vs) =~= slot_bytes(value).subrange(4, 4 + vs));
}

/// The offset of page `id` in the leaf file.
fn page_start(id: usize) -> (start: usize)
    requires
        id * 1048576 <= usize::MAX,
    ensures
        start == id * 1048576,
{
    assert(LEAF_SIZE == 1048576);
    id * LEAF_SIZE
}

impl View for LeafManager {
    type V = LeafManagerView;

    closed spec fn view(&self) -> LeafManagerView {
        LeafManagerView {
            data: self.data@,
            free: self.free_leaves@,
            mapped: self.header_mmap@,
        }
    }
}

impl LeafManager {
    /// The bytes of the leaf file as they stand.
    pub fn image(&self) -> (image: &Vec<u8>)
        ensures
            image@ == self@.data,
    {
        &self.data
    }

    /// Grows the file by one group of pages and lets them wait.
    fn allocate_new_leaves(&mut self) -> (res: Result<(), StoreError>)
        requires
            old(self)@.wf(),
        ensures
            final(self)@.wf(),
            match res {
                Ok(_) => old(self)@.can_grow() && final(self)@ == old(self)@.grown(),
                Err(e) => e == StoreError::NoSpace && !old(self)@.can_grow() && final(self)@ == old(
                    self,
                )@,
            },
    {
        let file_size: usize = self.data.len();
        let start_id: usize = file_size / LEAF_SIZE;
        if file_size > usize::MAX - NUM_ALLOCATION * LEAF_SIZE || start_id >= 0xFFFF_FFFF - 16 {
            return Err(StoreError::NoSpace);
        }
        let new_size: usize = file_size + NUM_ALLOCATION * LEAF_SIZE;
        self.data.resize(new_size, 0u8);
        assert(self.data@ =~= old(self)@.grown().data);
        let mut i: usize = 0;
        while i < NUM_ALLOCATION
            invariant
                i <= 16,
                start_id + 16 < 0xFFFF_FFFF,
                start_id == old(self)@.mapped.len(),
                self.data@ == old(self)@.grown().data,
                self.free_leaves@ == old(self)@.free + Seq::new(
                    i as nat,
                    |k: int| (start_id + k) as usize,
                ),
                self.header_mmap@ == old(self)@.mapped + Seq::new(i as nat, |k: int| false),
            decreases 16 - i,
        {
            self.free_leaves.push_back(start_id + i);
            self.header_mmap.push(false);
            i = i + 1;
            assert(self.free_leaves@ =~= old(self)@.free + Seq::new(
                i as nat,
                |k: int| (start_id + k) as usize,
            ));
            assert(self.header_mmap@ =~= old(self)@.mapped + Seq::new(i as nat, |k: int| false));
        }
        assert(self@ == old(self)@.grown());
        Ok(())
    }

    /// Hands out the page that waited longest, growing the file when none
    /// waits, and marks its header as in use.
    fn take_free_page(&mut self) -> (res: Result<usize, StoreError>)
        requires
            old(self)@.wf(),
        ensures
            final(self)@.wf(),
            final(self)@.grew_from(old(self)@, 1),
            match res {
                Ok(id) => {
                    &&& old(self)@.can_take()
                    &&& id == old(self)@.next_free()
                    &&& final(self)@ == old(self)@.after_take()
                    &&& !old(self)@.is_mapped(id as int)
                    &&& final(self)@.is_mapped(id as int)
                },
                Err(e) => e == StoreError::NoSpace && !old(self)@.can_take() && final(self)@
                    == old(self)@,
            },
    {
        if self.free_leaves.len() == 0 {
            match self.allocate_new_leaves() {
                Ok(_) => {},
                Err(e) => {
                    return Err(e);
                },
            }
        }
        let ghost refilled = self@;
        assert(refilled == old(self)@.refilled());
        match self.free_leaves.pop_front() {
            Some(id) => {
                self.header_mmap[id] = true;
                assert(self@ == old(self)@.after_take());
                Ok(id)
            },
            None => Err(StoreError::NoSpace),
        }
    }

    /// Hands out a page for a new leaf, with the header of an empty leaf.
    /// The header reaches the page with the next `commit_header`.
    pub fn allocate_leaf(&mut self) -> (res: Result<(usize, LeafHeader), StoreError>)
        requires
            old(self)@.wf(),
        ensures
            final(self)@.wf(),
            final(self)@.grew_from(old(self)@, 1),
            match res {
                Ok((id, header)) => {
                    &&& old(self)@.can_take()
                    &&& id == old(self)@.next_free()
                    &&& header == fresh_header()
                    &&& final(self)@ == old(self)@.after_take()
                    &&& !old(self)@.is_mapped(id as int)
                    &&& final(self)@.is_mapped(id as int)
                },
                Err(e) => e == StoreError::NoSpace && !old(self)@.can_take() && final(self)@
                    == old(self)@,
            },
    {
        match self.take_free_page() {
            Ok(id) => Ok((id, LeafHeader::new())),
            Err(e) => Err(e),
        }
    }

    /// The header that page `id` holds, decoded without any check; `None`
    /// where the page's header is not in use.
    pub fn get_header(&self, id: usize) -> (header: Option<LeafHeader>)
        requires
            self@.wf(),
        ensures
            header is Some <==> self@.is_mapped(id as int),
            header matches Some(h) ==> self@.holds_header(id as int, h),
    {
        if id >= self.header_mmap.len() || !self.header_mmap[id] {
            return None;
        }
        let total: usize = self.data.len();
        let start: usize = page_start(id);
        let region: &[u8] = slice_subrange(self.data.as_slice(), start, start + LEN_HEADER_BODY);
        let header: LeafHeader = LeafHeader::from_bytes(region);
        assert(region@.subrange(0, 564) == region@);
        Some(header)
    }

    /// Writes the header with its checksum into page `id`.
    pub fn commit_header(&mut self, id: usize, header: &LeafHeader)
        requires
            old(self)@.wf(),
            old(self)@.is_mapped(id as int),
        ensures
            final(self)@ == old(self)@.with_header(id as int, *header),
            final(self)@.wf(),
            final(self)@.grew_from(old(self)@, 0),
    {
        let total: usize = self.data.len();
        let encoded: Vec<u8> = header.to_page_bytes();
        write_at(&mut self.data, page_start(id), encoded.as_slice());
        assert(self@.free == old(self)@.free);
        assert(self@.mapped == old(self)@.mapped);
        assert(self@.data.len() == old(self)@.data.len());
    }
}


/// The file offset of `offset` within page `id`, where it can be computed.
fn locate(id: usize, offset: usize) -> (at: Option<usize>)
    ensures
        at == (if id * 1048576 + offset <= usize::MAX {
            Some((id * 1048576 + offset) as usize)
        } else {
            None
        }),
{
    assert(LEAF_SIZE == 1048576);
    match id.checked_mul(LEAF_SIZE) {
        Some(page) => page.checked_add(offset),
        None => None,
    }
}

/// The header bytes after the `ext` field was replaced.
proof fn lemma_ext_replaced(h: LeafHeader, ext: u32)
    ensures
        header_bytes(LeafHeader { ext, ..h }) == splice(
            header_bytes(h),
            12,
            spec_u32_to_le_bytes(ext),
        ),
{
    lemma_auto_spec_u32_to_from_le_bytes();
    lemma_header_bytes_parts(h);
    lemma_header_bytes_parts(LeafHeader { ext, ..h });
    assert(header_bytes(LeafHeader { ext, ..h }) =~= splice(
        header_bytes(h),
        12,
        spec_u32_to_le_bytes(ext),
    ));
}

impl LeafManager {
    /// Takes over the bytes of a leaf file. Of a file that existed before,
    /// the pages whose header has the magic number and a valid checksum are
    /// kept in use; all others wait to be handed out, in ascending order.
    #[verifier::rlimit(50)]
    pub fn new(image: Vec<u8>, is_created: bool) -> (manager: LeafManager)
        requires
            image@.len() / 1048576 < 0xFFFF_FFFF,
        ensures
            manager@.wf(),
            manager@.data == image@,
            manager@.mapped.len() == image@.len() / 1048576,
            is_created ==> manager@.free.len() == 0 && forall|id: int|
                0 <= id < manager@.mapped.len() ==> !manager@.mapped[id],
            !is_created ==> manager@.free == unrecovered_pages(image@, manager@.mapped.len())
                && forall|id: int|
                0 <= id < manager@.mapped.len() ==> manager@.mapped[id] == page_recoverable(
                    image@,
                    id,
                ),
    {
        let pages: usize = image.len() / LEAF_SIZE;
        proof {
            vstd::arithmetic::div_mod::lemma_fundamental_div_mod(image@.len() as int, 1048576);
        }
        let mut manager = LeafManager {
            data: image,
            free_leaves: VecDeque::new(),
            header_mmap: Vec::new(),
        };
        let mut id: usize = 0;
        while id < pages
            invariant
                id <= pages,
                pages * 1048576 <= manager.data@.len() < (pages + 1) * 1048576,
                manager.data@.len() <= usize::MAX,
                pages == image@.len() / 1048576,
                pages < 0xFFFF_FFFF,
                manager.data@ == image@,
                manager.header_mmap@.len() == id,
                is_created ==> manager.free_leaves@.len() == 0 && forall|k: int|
                    0 <= k < id ==> !manager.header_mmap@[k],
                !is_created ==> manager.free_leaves@ == unrecovered_pages(image@, id as nat)
                    && forall|k: int|
                    0 <= k < id ==> manager.header_mmap@[k] == page_recoverable(image@, k),
                forall|i: int|
                    0 <= i < manager.free_leaves@.len() ==> (#[trigger] manager.free_leaves@[i])
                        < id && !manager.header_mmap@[manager.free_leaves@[i] as int],
                forall|i: int, j: int|
                    0 <= i < j < manager.free_leaves@.len() ==> manager.free_leaves@[i]
                        != manager.free_leaves@[j],
            decreases pages - id,
        {
            let mut keep: bool = false;
            if !is_created {
                let start: usize = page_start(id);
                let region: &[u8] = slice_subrange(
                    manager.data.as_slice(),
                    start,
                    start + LEAF_HEADER_SIZE,
                );
                let magic: u32 = u32_from_le_bytes(slice_subrange(region, 0, LEN_HEADER_MAGIC));
                assert(region@.subrange(0, 4) =~= manager@.data.subrange(
                    id * 1048576,
                    id * 1048576 + 4,
                ));
                if magic == HEADER_MAGIC {
                    keep = check_header_crc(region).is_ok();
                }
                if !keep {
                    manager.free_leaves.push_back(id);
                }
            }
            manager.header_mmap.push(keep);
            id = id + 1;
        }
        manager
    }

    /// How many pages wait to be handed out.
    pub fn free_count(&self) -> (count: usize)
        ensures
            count == self@.free.len(),
    {
        self.free_leaves.len()
    }

    /// Reads the pair of these sizes at `offset` of page `id`, verifying
    /// both slots.
    #[verifier::rlimit(50)]
    pub fn read_data(&self, id: usize, offset: usize, key_size: usize, value_size: usize) -> (res:
        Result<(Vec<u8>, Vec<u8>), StoreError>)
        ensures
            match (res, self@.read_result(id as int, offset as int, key_size as int, value_size as int)) {
                (Ok((key, value)), Ok((k, v))) => key@ == k && value@ == v,
                (Err(e), Err(expected)) => e == expected,
                _ => false,
            },
    {
        let total: usize = self.data.len();
        let start: usize = match locate(id, offset) {
            Some(at) => at,
            None => {
                return Err(StoreError::OutOfRange);
            },
        };
        if start > total || key_size > total - start || value_size > total - start - key_size
            || 16 > total - start - key_size - value_size {
            return Err(StoreError::OutOfRange);
        }
        let size: usize = key_size + value_size + 16;
        let bound: usize = key_size + 8;
        let region: &[u8] = slice_subrange(self.data.as_slice(), start, start + size);
        let key_slot: &[u8] = slice_subrange(region, 0, bound);
        let value_slot: &[u8] = slice_subrange(region, bound, size);
        if check_slot_crc(key_slot).is_err() {
            return Err(StoreError::CrcMismatch);
        }
        if check_slot_crc(value_slot).is_err() {
            return Err(StoreError::CrcMismatch);
        }
        let key: Vec<u8> = copy_range(&self.data, start + 4, start + 4 + key_size);
        let value: Vec<u8> = if value_size == 0 {
            Vec::new()
        } else {
            copy_range(&self.data, start + key_size + 12, start + key_size + 12 + value_size)
        };
        proof {
            assert(key@ =~= region@.subrange(4, 4 + key_size));
            assert(value@ =~= region@.subrange(key_size + 12, key_size + 12 + value_size));
        }
        Ok((key, value))
    }

    /// Writes the encoded pair at `offset` of page `id` and returns the
    /// offset at which the next pair starts; `None`, with nothing written,
    /// where the pair would end beyond the last legal offset of a page.
    pub fn write_data(&mut self, id: usize, offset: usize, key: &Vec<u8>, value: &Vec<u8>) -> (res:
        Result<Option<usize>, StoreError>)
        ensures
            old(self)@.wf() ==> final(self)@.wf(),
            final(self)@.grew_from(old(self)@, 0),
            match res {
                Ok(Some(tail)) => {
                    &&& fits_page(offset as int, key@.len() as int, value@.len() as int)
                    &&& old(self)@.readable(
                        id as int,
                        offset as int,
                        key@.len() as int,
                        value@.len() as int,
                    )
                    &&& tail == offset + round_up((key@.len() + value@.len() + 16) as int)
                    &&& final(self)@ == old(self)@.with_pair(id as int, offset as int, key@, value@)
                },
                Ok(None) => {
                    &&& !fits_page(offset as int, key@.len() as int, value@.len() as int)
                    &&& final(self)@ == old(self)@
                },
                Err(e) => {
                    &&& e == StoreError::OutOfRange
                    &&& fits_page(offset as int, key@.len() as int, value@.len() as int)
                    &&& !old(self)@.readable(
                        id as int,
                        offset as int,
                        key@.len() as int,
                        value@.len() as int,
                    )
                    &&& final(self)@ == old(self)@
                },
            },
    {
        if key.len() > END_TAIL_OFFSET || value.len() > END_TAIL_OFFSET || offset
            > END_TAIL_OFFSET {
            return Ok(None);
        }
        let data_size: usize = key.len() + value.len() + 16;
        let aligned: usize = round_up_size(data_size);
        if aligned > END_TAIL_OFFSET - offset {
            return Ok(None);
        }
        let aligned_tail: usize = offset + aligned;
        let total: usize = self.data.len();
        let start: usize = match locate(id, offset) {
            Some(at) => at,
            None => {
                return Err(StoreError::OutOfRange);
            },
        };
        if start > total || data_size > total - start {
            return Err(StoreError::OutOfRange);
        }
        let data: Vec<u8> = format_data_with_crc(key, value);
        write_at(&mut self.data, start, data.as_slice());
        assert(self@.free == old(self)@.free);
        assert(self@.mapped == old(self)@.mapped);
        assert(self@.data.len() == old(self)@.data.len());
        Ok(Some(aligned_tail))
    }

    /// The leaves of the tree in key order: from page 0 along the `next`
    /// fields of the committed headers, up to the first page whose header
    /// is not in use. A chain that does not end within as many steps as
    /// the file has pages is broken.
    pub fn get_leaf_id_chain(&self) -> (res: Result<Vec<usize>, StoreError>)
        requires
            self@.wf(),
        ensures
            match self@.leaf_chain(0, self@.mapped.len()) {
                Some(chain) => res matches Ok(ids) && ids@ == chain,
                None => res == Err::<Vec<usize>, StoreError>(StoreError::BrokenChain),
            },
    {
        let pages: usize = self.header_mmap.len();
        let total: usize = self.data.len();
        let mut chain: Vec<usize> = Vec::new();
        let mut current: usize = 0;
        let mut fuel: usize = pages;
        loop
            invariant
                self@.wf(),
                fuel <= pages,
                match self@.leaf_chain(current as int, fuel as nat) {
                    Some(rest) => self@.leaf_chain(0, self@.mapped.len()) == Some(chain@ + rest),
                    None => self@.leaf_chain(0, self@.mapped.len()) is None,
                },
            decreases fuel,
        {
            let header: LeafHeader = match self.get_header(current) {
                Some(h) => h,
                None => {
                    assert(chain@ + Seq::<usize>::empty() =~= chain@);
                    return Ok(chain);
                },
            };
            if fuel == 0 {
                return Err(StoreError::BrokenChain);
            }
            proof {
                lemma_header_fields(self@, current as int, header);
            }
            let ghost before = chain@;
            chain.push(current);
            match header.get_next() {
                None => {
                    return Ok(chain);
                },
                Some(next) => {
                    proof {
                        let tail = self@.leaf_chain(next as int, (fuel - 1) as nat);
                        if tail is Some {
                            assert(before + (seq![current] + tail->0) =~= chain@ + tail->0);
                        }
                    }
                    current = next;
                    fuel = fuel - 1;
                },
            }
        }
    }

    /// Hands out a page and appends it to the extension chain of leaf `id`:
    /// the new page gets the header of an empty page, and the last page of
    /// the chain gets the new page as its `ext`.
    #[verifier::rlimit(50)]
    pub fn allocate_ext_page(&mut self, id: usize) -> (res: Result<usize, StoreError>)
        requires
            old(self)@.wf(),
        ensures
            final(self)@.wf(),
            final(self)@.grew_from(old(self)@, 1),
            match res {
                Ok(new_id) => {
                    &&& old(self)@.ext_tail(id as int, old(self)@.mapped.len()) matches Some(tail)
                    &&& old(self)@.can_take()
                    &&& new_id == old(self)@.next_free()
                    &&& !old(self)@.is_mapped(new_id as int)
                    &&& final(self)@ == old(self)@.after_take().with_header(
                        new_id as int,
                        fresh_header(),
                    ).linked(tail as int, new_id)
                },
                Err(e) => {
                    &&& final(self)@ == old(self)@
                    &&& match old(self)@.ext_tail(id as int, old(self)@.mapped.len()) {
                        Some(_) => e == StoreError::NoSpace && !old(self)@.can_take(),
                        None => e == StoreError::BrokenChain,
                    }
                },
            },
    {
        let pages: usize = self.header_mmap.len();
        let total: usize = self.data.len();
        let mut last_id: usize = id;
        let mut fuel: usize = pages;
        loop
            invariant_except_break
                self@ == old(self)@,
                self@.wf(),
                fuel <= pages,
                self@.ext_tail(last_id as int, fuel as nat) == old(self)@.ext_tail(
                    id as int,
                    old(self)@.mapped.len(),
                ),
            ensures
                self@ == old(self)@,
                old(self)@.ext_tail(id as int, old(self)@.mapped.len()) == Some(last_id),
                self@.is_mapped(last_id as int),
            decreases fuel,
        {
            if fuel == 0 {
                return Err(StoreError::BrokenChain);
            }
            let header: LeafHeader = match self.get_header(last_id) {
                Some(h) => h,
                None => {
                    return Err(StoreError::BrokenChain);
                },
            };
            proof {
                lemma_header_fields(self@, last_id as int, header);
            }
            match header.get_ext() {
                None => {
                    break ;
                },
                Some(ext) => {
                    last_id = ext;
                    fuel = fuel - 1;
                },
            }
        }
        let new_id: usize = match self.take_free_page() {
            Ok(new_id) => new_id,
            Err(e) => {
                return Err(e);
            },
        };
        let fresh: LeafHeader = LeafHeader::new();
        self.commit_header(new_id, &fresh);
        let ghost v2 = self@;
        let mut last_header: LeafHeader = match self.get_header(last_id) {
            Some(h) => h,
            None => {
                assert(false);
                return Err(StoreError::BrokenChain);
            },
        };
        let ghost before = last_header;
        last_header.set_ext(new_id);
        self.commit_header(last_id, &last_header);
        proof {
            lemma_ext_replaced(before, new_id as u32);
            assert(self@ == v2.linked(last_id as int, new_id));
        }
        Ok(new_id)
    }
}


/// What committing a header leaves alone: every data arena, and every
/// other page.
pub proof fn lemma_commit_frame(v: LeafManagerView, id: int, h: LeafHeader)
    requires
        0 <= id,
        (id + 1) * 1048576 <= v.data.len(),
    ensures
        v.with_header(id, h).data.len() == v.data.len(),
        forall|p: int, upto: int|
            0 <= p && 4096 <= upto <= 1048576 && p * 1048576 + upto <= v.data.len()
                ==> #[trigger] v.same_arena(v.with_header(id, h), p, upto),
        forall|p: int|
            0 <= p && p != id && (p + 1) * 1048576 <= v.data.len() ==> #[trigger] v.same_page(
                v.with_header(id, h),
                p,
            ),
{
    lemma_header_after_commit(v, id, h);
    let w = v.with_header(id, h);
    assert forall|p: int, upto: int|
        0 <= p && 4096 <= upto <= 1048576 && p * 1048576 + upto <= v.data.len()
            implies #[trigger] v.same_arena(w, p, upto) by {
        lemma_splice_keeps_arena(v, id * 1048576, header_page_bytes(h), p, upto);
    }
    assert forall|p: int|
        0 <= p && p != id && (p + 1) * 1048576 <= v.data.len() implies #[trigger] v.same_page(
        w,
        p,
    ) by {
        lemma_splice_keeps_page(v, id * 1048576, header_page_bytes(h), p);
    }
}

/// What writing a pair into a data arena leaves alone: the arena below the
/// pair, the header of the page, and every other page.
pub proof fn lemma_write_frame(
    v: LeafManagerView,
    id: int,
    offset: int,
    key: Seq<u8>,
    value: Seq<u8>,
)
    requires
        0 <= id,
        4096 <= offset,
        key.len() <= u32::MAX,
        value.len() <= u32::MAX,
        offset + key.len() + value.len() + 16 <= 1048576,
        (id + 1) * 1048576 <= v.data.len(),
    ensures
        v.with_pair(id, offset, key, value).data.len() == v.data.len(),
        forall|upto: int|
            4096 <= upto <= offset ==> #[trigger] v.same_arena(
                v.with_pair(id, offset, key, value),
                id,
                upto,
            ),
        forall|p: int, upto: int|
            0 <= p && p != id && 4096 <= upto <= 1048576 && p * 1048576 + upto <= v.data.len()
                ==> #[trigger] v.same_arena(v.with_pair(id, offset, key, value), p, upto),
        forall|p: int|
            0 <= p && p != id && (p + 1) * 1048576 <= v.data.len() ==> #[trigger] v.same_page(
                v.with_pair(id, offset, key, value),
                p,
            ),
        v.with_pair(id, offset, key, value).header_region(id) == v.header_region(id),
        v.with_pair(id, offset, key, value).page_ext(id) == v.page_ext(id),
        v.with_pair(id, offset, key, value).page_next(id) == v.page_next(id),
{
    lemma_slot_bytes_ok(key);
    lemma_slot_bytes_ok(value);
    let bytes = pair_bytes(key, value);
    let at = id * 1048576 + offset;
    let w = v.with_pair(id, offset, key, value);
    lemma_header_unchanged(v, at, bytes, id);
    assert forall|upto: int| 4096 <= upto <= offset implies #[trigger] v.same_arena(
        w,
        id,
        upto,
    ) by {
        lemma_splice_keeps_arena(v, at, bytes, id, upto);
    }
    assert forall|p: int, upto: int|
        0 <= p && p != id && 4096 <= upto <= 1048576 && p * 1048576 + upto <= v.data.len()
            implies #[trigger] v.same_arena(w, p, upto) by {
        lemma_splice_keeps_arena(v, at, bytes, p, upto);
    }
    assert forall|p: int|
        0 <= p && p != id && (p + 1) * 1048576 <= v.data.len() implies #[trigger] v.same_page(
        w,
        p,
    ) by {
        lemma_splice_keeps_page(v, at, bytes, p);
    }
}

/// What appending an extension page leaves alone, and how the chain
/// stands afterwards.
#[verifier::rlimit(50)]
pub proof fn lemma_ext_page_frame(v: LeafManagerView, tail: int, new_id: usize)
    requires
        v.wf(),
        v.can_take(),
        v.is_mapped(tail),
        new_id == v.next_free(),
    ensures
        ({
            let w = v.after_take().with_header(new_id as int, fresh_header()).linked(tail, new_id);
            &&& w.data.len() >= v.data.len()
            &&& w.mapped.len() >= v.mapped.len()
            &&& !v.is_mapped(new_id as int)
            &&& w.is_mapped(new_id as int)
            &&& forall|p: int| v.is_mapped(p) ==> w.is_mapped(p)
            &&& forall|p: int, upto: int|
                0 <= p && 4096 <= upto <= 1048576 && p * 1048576 + upto <= v.data.len()
                    ==> #[trigger] v.same_arena(w, p, upto)
            &&& forall|p: int|
                0 <= p && p != tail && p != new_id && (p + 1) * 1048576 <= v.data.len()
                    ==> #[trigger] v.same_page(w, p)
            &&& w.page_ext(new_id as int) is None
            &&& w.page_ext(tail) == Some(new_id)
        }),
{
    lemma_auto_spec_u32_to_from_le_bytes();
    let w1 = v.after_take();
    let fresh = fresh_header();
    let w2 = w1.with_header(new_id as int, fresh);
    let w = w2.linked(tail, new_id);
    assert(w1.data.len() >= v.data.len());
    assert(w1.data.subrange(0, v.data.len() as int) =~= v.data);
    assert(tail != new_id);
    lemma_header_after_commit(w1, new_id as int, fresh);
    lemma_commit_frame(w1, new_id as int, fresh);
    let relinked = with_trailing_crc(
        splice(w2.header_region(tail), 12, spec_u32_to_le_bytes(new_id as u32)),
    );
    assert(relinked.len() == 568);
    lemma_header_fields(w2, new_id as int, fresh);
    lemma_header_unchanged(w2, tail * 1048576, relinked, new_id as int);
    assert(w.data.subrange(tail * 1048576 + 12, tail * 1048576 + 16) =~= spec_u32_to_le_bytes(
        new_id as u32,
    ));
    assert forall|p: int, upto: int|
        0 <= p && 4096 <= upto <= 1048576 && p * 1048576 + upto <= v.data.len()
            implies #[trigger] v.same_arena(w, p, upto) by {
        assert(v.data.subrange(p * 1048576 + 4096, p * 1048576 + upto) =~= w1.data.subrange(
            p * 1048576 + 4096,
            p * 1048576 + upto,
        ));
        assert(w1.same_arena(w2, p, upto));
        lemma_splice_keeps_arena(w2, tail * 1048576, relinked, p, upto);
    }
    assert forall|p: int|
        0 <= p && p != tail && p != new_id && (p + 1) * 1048576 <= v.data.len()
            implies #[trigger] v.same_page(w, p) by {
        assert(v.data.subrange(p * 1048576, (p + 1) * 1048576) =~= w1.data.subrange(
            p * 1048576,
            (p + 1) * 1048576,
        ));
        assert(w1.same_page(w2, p));
        lemma_splice_keeps_page(w2, tail * 1048576, relinked, p);
    }
}

/// A walk along a chain stops before the first page whose header is no
/// longer in use, where the pages before it are as they were.
pub proof fn lemma_chain_cut(
    m: LeafManagerView,
    r: LeafManagerView,
    from: int,
    fuel: nat,
    chain: Seq<usize>,
    at: int,
)
    requires
        m.wf(),
        m.leaf_chain(from, fuel) == Some(chain),
        0 <= at < chain.len(),
        !r.is_mapped(chain[at] as int),
        forall|k: int|
            0 <= k < at ==> r.is_mapped(#[trigger] chain[k] as int) && r.page_next(chain[k] as int)
                == m.page_next(chain[k] as int),
    ensures
        r.leaf_chain(from, fuel) == Some(chain.subrange(0, at)),
    decreases fuel,
{
    assert(m.is_mapped(from));
    assert(fuel > 0);
    assert(from as usize == from);
    assert(chain[0] == from);
    if at == 0 {
        assert(chain.subrange(0, 0) =~= Seq::<usize>::empty());
    } else {
        match m.page_next(from) {
            None => {
                assert(chain.len() == 1);
            },
            Some(next) => {
                let rest = m.leaf_chain(next as int, (fuel - 1) as nat)->0;
                assert(chain == seq![from as usize] + rest);
                assert forall|k: int| 0 <= k < at - 1 implies r.is_mapped(
                    #[trigger] rest[k] as int,
                ) && r.page_next(rest[k] as int) == m.page_next(rest[k] as int) by {
                    assert(rest[k] == chain[k + 1]);
                }
                assert(rest[at - 1] == chain[at]);
                lemma_chain_cut(m, r, next as int, (fuel - 1) as nat, rest, at - 1);
                assert(seq![from as usize] + rest.subrange(0, at - 1) =~= chain.subrange(0, at));
            },
        }
    }
}

} // verus!
