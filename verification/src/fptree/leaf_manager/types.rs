use crate::util::data_util::{append_bytes, calc_crc, with_trailing_crc};
use vstd::bytes::{
    lemma_auto_spec_u32_to_from_le_bytes,
    spec_u32_to_le_bytes,
    u32_from_le_bytes,
    u32_to_le_bytes,
};
use vstd::prelude::*;
use vstd::slice::slice_subrange;

verus! {

/// Slots of one leaf.
pub const NUM_SLOT: usize = 32;

/// Pages by which the leaf file grows.
pub const NUM_ALLOCATION: usize = 16;

/// Bytes of one page.
pub const LEAF_SIZE: usize = 1048576;

/// The page id that stands for "no page".
pub const INVALID_LEAF_ID: u32 = 0xFFFF_FFFF;

/// First offset of a page at which a pair may be written.
pub const INITIAL_TAIL_OFFSET: usize = 4096;

/// No pair may end beyond this offset of a page.
pub const END_TAIL_OFFSET: usize = 1044480;

/// Marks a page that holds a header.
pub const HEADER_MAGIC: u32 = 0x1234;

/// Width of the magic field.
pub const LEN_HEADER_MAGIC: usize = 4;

/// Bytes of an encoded header without its checksum.
pub const LEN_HEADER_BODY: usize = 564;

/// Bytes of an encoded header with its checksum.
pub const LEAF_HEADER_SIZE: usize = 568;

/// Where the pair of one slot lies: page, offset within it, payload sizes.
#[derive(Clone, Copy, Debug, PartialEq, Eq, Structural)]
pub struct KVInfo {
    pub page_id: u32,
    pub offset: u32,
    pub key_size: u32,
    pub value_size: u32,
}

/// The header of a leaf page.
#[derive(Clone, Copy, Debug, PartialEq, Eq)]
pub struct LeafHeader {
    pub magic: u32,
    pub bitmap: [u8; 4],
    pub next: u32,
    pub ext: u32,
    pub tail_offset: u32,
    pub fingerprints: [u8; 32],
    pub kv_info: [KVInfo; 32],
}

/// Bit `bit` of `byte`.
pub open spec fn byte_bit(byte: u8, bit: u8) -> bool {
    byte & (1u8 << bit) != 0
}

proof fn lemma_bit_after_set(byte: u8, i: u8, j: u8)
    by (bit_vector)
    requires
        i < 8,
        j < 8,
    ensures
        byte_bit(byte | (1u8 << i), j) == (j == i || byte_bit(byte, j)),
{
}

proof fn lemma_bit_after_unset(byte: u8, i: u8, j: u8)
    by (bit_vector)
    requires
        i < 8,
        j < 8,
    ensures
        byte_bit(byte & (0xFFu8 ^ (1u8 << i)), j) == (j != i && byte_bit(byte, j)),
{
}

proof fn lemma_full_byte(byte: u8)
    by (bit_vector)
    ensures
        (byte == 0xFFu8) == (byte_bit(byte, 0) && byte_bit(byte, 1) && byte_bit(byte, 2)
            && byte_bit(byte, 3) && byte_bit(byte, 4) && byte_bit(byte, 5) && byte_bit(byte, 6)
            && byte_bit(byte, 7)),
{
}

proof fn lemma_zero_byte(j: u8)
    by (bit_vector)
    requires
        j < 8,
    ensures
        !byte_bit(0u8, j),
{
}

/// The sixteen bytes of one slot's location.
pub open spec fn kv_info_bytes(info: KVInfo) -> Seq<u8> {
    spec_u32_to_le_bytes(info.page_id) + spec_u32_to_le_bytes(info.offset) + spec_u32_to_le_bytes(
        info.key_size,
    ) + spec_u32_to_le_bytes(info.value_size)
}

/// The locations of all slots, one after the other.
pub open spec fn kv_table_bytes(infos: Seq<KVInfo>) -> Seq<u8> {
    Seq::new((16 * infos.len()) as nat, |i: int| kv_info_bytes(infos[i / 16])[i % 16])
}

/// The encoding of a header, without checksum: every field in declaration
/// order, integers little-endian.
pub open spec fn header_bytes(h: LeafHeader) -> Seq<u8> {
    spec_u32_to_le_bytes(h.magic) + h.bitmap@ + spec_u32_to_le_bytes(h.next)
        + spec_u32_to_le_bytes(h.ext) + spec_u32_to_le_bytes(h.tail_offset) + h.fingerprints@
        + kv_table_bytes(h.kv_info@)
}

/// The encoding of a header as it is kept in a page: the fields, then the
/// checksum of the fields.
pub open spec fn header_page_bytes(h: LeafHeader) -> Seq<u8> {
    with_trailing_crc(header_bytes(h))
}

/// The header of a leaf without pairs, siblings or extension pages.
pub open spec fn fresh_header() -> LeafHeader {
    LeafHeader {
        magic: HEADER_MAGIC,
        bitmap: vstd::array::spec_array_fill_for_copy_type::<u8, 4>(0u8),
        next: INVALID_LEAF_ID,
        ext: INVALID_LEAF_ID,
        tail_offset: 4096,
        fingerprints: vstd::array::spec_array_fill_for_copy_type::<u8, 32>(0u8),
        kv_info: vstd::array::spec_array_fill_for_copy_type::<KVInfo, 32>(
            KVInfo { page_id: 0, offset: 0, key_size: 0, value_size: 0 },
        ),
    }
}

/// The header of an empty leaf has no taken slot.
pub proof fn lemma_fresh_header_empty()
    ensures
        forall|slot: int| 0 <= slot < 32 ==> !fresh_header().occupied(slot),
        !fresh_header().full(),
{
    broadcast use vstd::array::group_array_axioms;

    assert forall|slot: int| 0 <= slot < 32 implies !fresh_header().occupied(slot) by {
        assert(fresh_header().bitmap[slot / 8] == 0u8);
        lemma_zero_byte((slot % 8) as u8);
    }
    assert(!fresh_header().occupied(0));
}

impl KVInfo {
    pub fn new() -> (info: KVInfo)
        ensures
            info == (KVInfo { page_id: 0, offset: 0, key_size: 0, value_size: 0 }),
    {
        KVInfo { page_id: 0, offset: 0, key_size: 0, value_size: 0 }
    }

    /// The location as `(page, offset, key size, value size)`.
    pub open spec fn as_tuple(self) -> (usize, usize, usize, usize) {
        (
            self.page_id as usize,
            self.offset as usize,
            self.key_size as usize,
            self.value_size as usize,
        )
    }

    pub fn get(&self) -> (location: (usize, usize, usize, usize))
        ensures
            location == self.as_tuple(),
    {
        (
            self.page_id as usize,
            self.offset as usize,
            self.key_size as usize,
            self.value_size as usize,
        )
    }

    /// Stores the low 32 bits of each number.
    pub fn set(&mut self, page_id: usize, offset: usize, key_size: usize, value_size: usize)
        ensures
            *final(self) == (KVInfo {
                page_id: page_id as u32,
                offset: offset as u32,
                key_size: key_size as u32,
                value_size: value_size as u32,
            }),
    {
        self.page_id = #[verifier::truncate] (page_id as u32);
        self.offset = #[verifier::truncate] (offset as u32);
        self.key_size = #[verifier::truncate] (key_size as u32);
        self.value_size = #[verifier::truncate] (value_size as u32);
    }

    /// Appends the sixteen bytes of this location.
    pub fn append_to(&self, out: &mut Vec<u8>)
        ensures
            final(out)@ == old(out)@ + kv_info_bytes(*self),
    {
        let a: Vec<u8> = u32_to_le_bytes(self.page_id);
        let b: Vec<u8> = u32_to_le_bytes(self.offset);
        let c: Vec<u8> = u32_to_le_bytes(self.key_size);
        let d: Vec<u8> = u32_to_le_bytes(self.value_size);
        append_bytes(out, a.as_slice());
        append_bytes(out, b.as_slice());
        append_bytes(out, c.as_slice());
        append_bytes(out, d.as_slice());
        assert(out@ == old(out)@ + kv_info_bytes(*self));
    }

    /// Reads a location from sixteen bytes.
    pub fn from_bytes(bytes: &[u8]) -> (info: KVInfo)
        requires
            bytes@.len() == 16,
        ensures
            kv_info_bytes(info) == bytes@,
    {
        let info = KVInfo {
            page_id: u32_from_le_bytes(slice_subrange(bytes, 0, 4)),
            offset: u32_from_le_bytes(slice_subrange(bytes, 4, 8)),
            key_size: u32_from_le_bytes(slice_subrange(bytes, 8, 12)),
            value_size: u32_from_le_bytes(slice_subrange(bytes, 12, 16)),
        };
        proof {
            lemma_auto_spec_u32_to_from_le_bytes();
            assert(kv_info_bytes(info) =~= bytes@.subrange(0, 4) + bytes@.subrange(4, 8)
                + bytes@.subrange(8, 12) + bytes@.subrange(12, 16));
            assert(kv_info_bytes(info) =~= bytes@);
        }
        info
    }
}

/// A location is determined by its sixteen bytes.
pub proof fn lemma_kv_info_bytes_injective(a: KVInfo, b: KVInfo)
    requires
        kv_info_bytes(a) == kv_info_bytes(b),
    ensures
        a == b,
{
    lemma_auto_spec_u32_to_from_le_bytes();
    let x = kv_info_bytes(a);
    let y = kv_info_bytes(b);
    assert(x.len() == 16);
    assert(x.subrange(0, 4) == spec_u32_to_le_bytes(a.page_id));
    assert(y.subrange(0, 4) == spec_u32_to_le_bytes(b.page_id));
    assert(x.subrange(4, 8) == spec_u32_to_le_bytes(a.offset));
    assert(y.subrange(4, 8) == spec_u32_to_le_bytes(b.offset));
    assert(x.subrange(8, 12) == spec_u32_to_le_bytes(a.key_size));
    assert(y.subrange(8, 12) == spec_u32_to_le_bytes(b.key_size));
    assert(x.subrange(12, 16) == spec_u32_to_le_bytes(a.value_size));
    assert(y.subrange(12, 16) == spec_u32_to_le_bytes(b.value_size));
}


impl LeafHeader {
    /// Whether `slot` holds a pair.
    pub open spec fn occupied(self, slot: int) -> bool {
        byte_bit(self.bitmap[slot / 8], (slot % 8) as u8)
    }

    /// Whether every slot holds a pair.
    pub open spec fn full(self) -> bool {
        forall|slot: int| 0 <= slot < 32 ==> self.occupied(slot)
    }

    /// The next leaf of the sibling chain, if any.
    pub open spec fn spec_next(self) -> Option<usize> {
        if self.next == INVALID_LEAF_ID {
            None
        } else {
            Some(self.next as usize)
        }
    }

    /// The next page of this leaf's extension chain, if any.
    pub open spec fn spec_ext(self) -> Option<usize> {
        if self.ext == INVALID_LEAF_ID {
            None
        } else {
            Some(self.ext as usize)
        }
    }

    /// A header of a leaf without pairs, siblings or extension pages.
    pub fn new() -> (header: LeafHeader)
        ensures
            header == fresh_header(),
            header.magic == HEADER_MAGIC,
            header.next == INVALID_LEAF_ID,
            header.ext == INVALID_LEAF_ID,
            header.tail_offset == INITIAL_TAIL_OFFSET,
            forall|i: int| 0 <= i < 4 ==> header.bitmap[i] == 0,
            forall|i: int| 0 <= i < 32 ==> header.fingerprints[i] == 0,
            forall|i: int|
                0 <= i < 32 ==> header.kv_info[i] == (KVInfo {
                    page_id: 0,
                    offset: 0,
                    key_size: 0,
                    value_size: 0,
                }),
            forall|slot: int| 0 <= slot < 32 ==> !header.occupied(slot),
    {
        let header = LeafHeader {
            magic: HEADER_MAGIC,
            bitmap: [0u8; 4],
            next: INVALID_LEAF_ID,
            ext: INVALID_LEAF_ID,
            fingerprints: [0u8; 32],
            kv_info: [KVInfo { page_id: 0, offset: 0, key_size: 0, value_size: 0 }; 32],
            tail_offset: 4096,
        };
        proof {
            assert forall|slot: int| 0 <= slot < 32 implies !header.occupied(slot) by {
                lemma_zero_byte((slot % 8) as u8);
            }
        }
        header
    }

    /// A leaf is split when all its slots are taken.
    pub fn need_split(&self) -> (full: bool)
        ensures
            full == self.full(),
    {
        let full: bool = self.bitmap[0] == 0xFF && self.bitmap[1] == 0xFF && self.bitmap[2] == 0xFF
            && self.bitmap[3] == 0xFF;
        proof {
            lemma_full_byte(self.bitmap[0]);
            lemma_full_byte(self.bitmap[1]);
            lemma_full_byte(self.bitmap[2]);
            lemma_full_byte(self.bitmap[3]);
            if full {
                assert forall|slot: int| 0 <= slot < 32 implies self.occupied(slot) by {
                    let i = slot / 8;
                    let j = slot % 8;
                    assert(0 <= i < 4 && 0 <= j < 8);
                }
            } else {
                let i = if self.bitmap[0] != 0xFF {
                    0int
                } else if self.bitmap[1] != 0xFF {
                    1int
                } else if self.bitmap[2] != 0xFF {
                    2int
                } else {
                    3int
                };
                let b = self.bitmap[i];
                let j = if !byte_bit(b, 0) {
                    0int
                } else if !byte_bit(b, 1) {
                    1int
                } else if !byte_bit(b, 2) {
                    2int
                } else if !byte_bit(b, 3) {
                    3int
                } else if !byte_bit(b, 4) {
                    4int
                } else if !byte_bit(b, 5) {
                    5int
                } else if !byte_bit(b, 6) {
                    6int
                } else {
                    7int
                };
                assert(!self.occupied(8 * i + j));
            }
        }
        full
    }

    /// The lowest slot that holds no pair.
    pub fn get_empty_slot(&self) -> (slot: Option<usize>)
        ensures
            match slot {
                Some(s) => s < 32 && !self.occupied(s as int) && forall|t: int|
                    0 <= t < s ==> self.occupied(t),
                None => self.full(),
            },
    {
        let mut slot: usize = 0;
        while slot < NUM_SLOT
            invariant
                slot <= 32,
                forall|t: int| 0 <= t < slot ==> self.occupied(t),
            decreases 32 - slot,
        {
            if !self.is_slot_set(slot) {
                return Some(slot);
            }
            slot = slot + 1;
        }
        None
    }

    pub fn is_slot_set(&self, slot: usize) -> (set: bool)
        requires
            slot < NUM_SLOT,
        ensures
            set == self.occupied(slot as int),
    {
        let idx: usize = slot / 8;
        let offset: u8 = (slot % 8) as u8;
        self.bitmap[idx] & (1u8 << offset) != 0
    }

    pub fn set_slot(&mut self, slot: usize)
        requires
            slot < NUM_SLOT,
        ensures
            forall|t: int|
                0 <= t < 32 ==> final(self).occupied(t) == (t == slot || old(self).occupied(t)),
            final(self).same_but_bitmap(*old(self)),
    {
        let idx: usize = slot / 8;
        let offset: u8 = (slot % 8) as u8;
        let byte: u8 = self.bitmap[idx] | (1u8 << offset);
        self.bitmap[idx] = byte;
        proof {
            assert forall|t: int| 0 <= t < 32 implies self.occupied(t) == (t == slot
                || old(self).occupied(t)) by {
                lemma_bit_after_set(old(self).bitmap[idx as int], offset, (t % 8) as u8);
            }
        }
    }

    pub fn unset_slot(&mut self, slot: usize)
        requires
            slot < NUM_SLOT,
        ensures
            forall|t: int|
                0 <= t < 32 ==> final(self).occupied(t) == (t != slot && old(self).occupied(t)),
            final(self).same_but_bitmap(*old(self)),
    {
        let idx: usize = slot / 8;
        let offset: u8 = (slot % 8) as u8;
        let byte: u8 = self.bitmap[idx] & (0xFFu8 ^ (1u8 << offset));
        self.bitmap[idx] = byte;
        proof {
            assert forall|t: int| 0 <= t < 32 implies self.occupied(t) == (t != slot
                && old(self).occupied(t)) by {
                lemma_bit_after_unset(old(self).bitmap[idx as int], offset, (t % 8) as u8);
            }
        }
    }

    /// All fields but the bitmap agree.
    pub open spec fn same_but_bitmap(self, other: LeafHeader) -> bool {
        &&& self.magic == other.magic
        &&& self.next == other.next
        &&& self.ext == other.ext
        &&& self.tail_offset == other.tail_offset
        &&& self.fingerprints == other.fingerprints
        &&& self.kv_info == other.kv_info
    }

    pub fn get_next(&self) -> (next: Option<usize>)
        ensures
            next == self.spec_next(),
    {
        if self.next == INVALID_LEAF_ID {
            None
        } else {
            Some(self.next as usize)
        }
    }

    /// Stores the low 32 bits of `next_id`.
    pub fn set_next(&mut self, next_id: usize)
        ensures
            *final(self) == (LeafHeader { next: next_id as u32, ..*old(self) }),
    {
        self.next = #[verifier::truncate] (next_id as u32);
    }

    pub fn get_ext(&self) -> (ext: Option<usize>)
        ensures
            ext == self.spec_ext(),
    {
        if self.ext == INVALID_LEAF_ID {
            None
        } else {
            Some(self.ext as usize)
        }
    }

    /// Stores the low 32 bits of `ext_id`.
    pub fn set_ext(&mut self, ext_id: usize)
        ensures
            *final(self) == (LeafHeader { ext: ext_id as u32, ..*old(self) }),
    {
        self.ext = #[verifier::truncate] (ext_id as u32);
    }

    pub fn get_tail_offset(&self) -> (offset: usize)
        ensures
            offset == self.tail_offset,
    {
        self.tail_offset as usize
    }

    /// Stores the low 32 bits of `data_offset`.
    pub fn set_tail_offset(&mut self, data_offset: usize)
        ensures
            *final(self) == (LeafHeader { tail_offset: data_offset as u32, ..*old(self) }),
    {
        self.tail_offset = #[verifier::truncate] (data_offset as u32);
    }

    pub fn get_fingerprints(&self) -> (fingerprints: &[u8])
        ensures
            fingerprints@ == self.fingerprints@,
    {
        self.fingerprints.as_slice()
    }

    pub fn set_fingerprint(&mut self, slot: usize, hash: u8)
        requires
            slot < NUM_SLOT,
        ensures
            final(self).fingerprints@ == old(self).fingerprints@.update(slot as int, hash),
            final(self).magic == old(self).magic,
            final(self).bitmap == old(self).bitmap,
            final(self).next == old(self).next,
            final(self).ext == old(self).ext,
            final(self).tail_offset == old(self).tail_offset,
            final(self).kv_info == old(self).kv_info,
    {
        self.fingerprints[slot] = hash;
    }

    pub fn get_kv_info(&self, slot: usize) -> (location: (usize, usize, usize, usize))
        requires
            slot < NUM_SLOT,
        ensures
            location == self.kv_info[slot as int].as_tuple(),
    {
        self.kv_info[slot].get()
    }

    /// Stores the low 32 bits of each number as the location of `slot`.
    pub fn set_kv_info(
        &mut self,
        slot: usize,
        page_id: usize,
        data_offset: usize,
        key_size: usize,
        value_size: usize,
    )
        requires
            slot < NUM_SLOT,
        ensures
            final(self).kv_info@ == old(self).kv_info@.update(
                slot as int,
                KVInfo {
                    page_id: page_id as u32,
                    offset: data_offset as u32,
                    key_size: key_size as u32,
                    value_size: value_size as u32,
                },
            ),
            final(self).magic == old(self).magic,
            final(self).bitmap == old(self).bitmap,
            final(self).next == old(self).next,
            final(self).ext == old(self).ext,
            final(self).tail_offset == old(self).tail_offset,
            final(self).fingerprints == old(self).fingerprints,
    {
        let mut info: KVInfo = self.kv_info[slot];
        info.set(page_id, data_offset, key_size, value_size);
        self.kv_info[slot] = info;
    }
}


/// How the encoding of a header is laid out.
#[verifier::rlimit(50)]
pub proof fn lemma_header_bytes_parts(h: LeafHeader)
    ensures
        header_bytes(h).len() == 564,
        header_bytes(h).subrange(0, 4) == spec_u32_to_le_bytes(h.magic),
        header_bytes(h).subrange(4, 8) == h.bitmap@,
        header_bytes(h).subrange(8, 12) == spec_u32_to_le_bytes(h.next),
        header_bytes(h).subrange(12, 16) == spec_u32_to_le_bytes(h.ext),
        header_bytes(h).subrange(16, 20) == spec_u32_to_le_bytes(h.tail_offset),
        header_bytes(h).subrange(20, 52) == h.fingerprints@,
        header_bytes(h).subrange(52, 564) == kv_table_bytes(h.kv_info@),
{
    lemma_auto_spec_u32_to_from_le_bytes();
    let b = header_bytes(h);
    assert(b.len() == 564);
    assert(b.subrange(0, 4) =~= spec_u32_to_le_bytes(h.magic));
    assert(b.subrange(4, 8) =~= h.bitmap@);
    assert(b.subrange(8, 12) =~= spec_u32_to_le_bytes(h.next));
    assert(b.subrange(12, 16) =~= spec_u32_to_le_bytes(h.ext));
    assert(b.subrange(16, 20) =~= spec_u32_to_le_bytes(h.tail_offset));
    assert(b.subrange(20, 52) =~= h.fingerprints@);
    assert(b.subrange(52, 564) =~= kv_table_bytes(h.kv_info@));
}

/// The sixteen bytes of slot `i` within the table of locations.
pub proof fn lemma_kv_table_entry(infos: Seq<KVInfo>, i: int)
    requires
        0 <= i < infos.len(),
    ensures
        kv_table_bytes(infos).subrange(16 * i, 16 * i + 16) == kv_info_bytes(infos[i]),
{
    lemma_auto_spec_u32_to_from_le_bytes();
    let t = kv_table_bytes(infos);
    let e = kv_info_bytes(infos[i]);
    assert(e.len() == 16);
    assert forall|j: int| 0 <= j < 16 implies t.subrange(16 * i, 16 * i + 16)[j] == e[j] by {
        assert((16 * i + j) / 16 == i);
        assert((16 * i + j) % 16 == j);
    }
    assert(t.subrange(16 * i, 16 * i + 16) =~= e);
}

/// A header is determined by its encoding.
pub proof fn lemma_header_bytes_injective(a: LeafHeader, b: LeafHeader)
    requires
        header_bytes(a) == header_bytes(b),
    ensures
        a == b,
{
    lemma_auto_spec_u32_to_from_le_bytes();
    lemma_header_bytes_parts(a);
    lemma_header_bytes_parts(b);
    assert(a.magic == b.magic);
    assert(a.next == b.next);
    assert(a.ext == b.ext);
    assert(a.tail_offset == b.tail_offset);
    assert(a.bitmap =~= b.bitmap);
    assert(a.fingerprints =~= b.fingerprints);
    assert forall|i: int| 0 <= i < 32 implies a.kv_info[i] == b.kv_info[i] by {
        lemma_kv_table_entry(a.kv_info@, i);
        lemma_kv_table_entry(b.kv_info@, i);
        lemma_kv_info_bytes_injective(a.kv_info[i], b.kv_info[i]);
    }
    assert(a.kv_info =~= b.kv_info);
}

impl LeafHeader {
    /// Encodes the header without checksum.
    #[verifier::rlimit(50)]
    pub fn to_bytes(&self) -> (bytes: Vec<u8>)
        ensures
            bytes@ == header_bytes(*self),
            bytes@.len() == 564,
    {
        let mut out: Vec<u8> = Vec::new();
        let magic: Vec<u8> = u32_to_le_bytes(self.magic);
        let next: Vec<u8> = u32_to_le_bytes(self.next);
        let ext: Vec<u8> = u32_to_le_bytes(self.ext);
        let tail: Vec<u8> = u32_to_le_bytes(self.tail_offset);
        append_bytes(&mut out, magic.as_slice());
        append_bytes(&mut out, self.bitmap.as_slice());
        append_bytes(&mut out, next.as_slice());
        append_bytes(&mut out, ext.as_slice());
        append_bytes(&mut out, tail.as_slice());
        append_bytes(&mut out, self.fingerprints.as_slice());
        let ghost prefix = out@;
        let mut i: usize = 0;
        while i < NUM_SLOT
            invariant
                i <= 32,
                out@ == prefix + kv_table_bytes(self.kv_info@.subrange(0, i as int)),
            decreases 32 - i,
        {
            let ghost before = out@;
            self.kv_info[i].append_to(&mut out);
            proof {
                lemma_auto_spec_u32_to_from_le_bytes();
                let shorter = self.kv_info@.subrange(0, i as int);
                let longer = self.kv_info@.subrange(0, i + 1);
                let entry = kv_info_bytes(self.kv_info[i as int]);
                assert(entry.len() == 16);
                assert forall|j: int| 0 <= j < 16 * (i + 1) implies (kv_table_bytes(shorter)
                    + entry)[j] == kv_table_bytes(longer)[j] by {
                    if j >= 16 * i {
                        assert(j / 16 == i as int);
                        assert(j % 16 == j - 16 * i);
                    } else {
                        assert(j / 16 < i);
                    }
                }
                assert(kv_table_bytes(shorter) + entry =~= kv_table_bytes(longer));
                assert(out@ == prefix + (kv_table_bytes(shorter) + entry));
            }
            i = i + 1;
        }
        proof {
            assert(self.kv_info@.subrange(0, 32) == self.kv_info@);
            lemma_header_bytes_parts(*self);
        }
        out
    }

    /// Encodes the header as a page keeps it: the fields, then their checksum.
    pub fn to_page_bytes(&self) -> (bytes: Vec<u8>)
        ensures
            bytes@ == header_page_bytes(*self),
            bytes@.len() == 568,
    {
        let mut out: Vec<u8> = self.to_bytes();
        let crc: Vec<u8> = u32_to_le_bytes(calc_crc(&out));
        append_bytes(&mut out, crc.as_slice());
        out
    }

    /// Decodes a header from the first 564 bytes. No field is checked: every
    /// bit pattern is a header.
    #[verifier::rlimit(50)]
    pub fn from_bytes(bytes: &[u8]) -> (header: LeafHeader)
        requires
            bytes@.len() >= 564,
        ensures
            header_bytes(header) == bytes@.subrange(0, 564),
    {
        let mut bitmap: [u8; 4] = [0u8; 4];
        let mut fingerprints: [u8; 32] = [0u8; 32];
        let mut kv_info: [KVInfo; 32] = [KVInfo { page_id: 0, offset: 0, key_size: 0, value_size: 0 };
            32];
        let mut i: usize = 0;
        while i < 4
            invariant
                i <= 4,
                bytes@.len() >= 564,
                forall|k: int| 0 <= k < i ==> bitmap[k] == bytes@[4 + k],
            decreases 4 - i,
        {
            bitmap[i] = bytes[4 + i];
            i = i + 1;
        }
        i = 0;
        while i < NUM_SLOT
            invariant
                i <= 32,
                bytes@.len() >= 564,
                forall|k: int| 0 <= k < i ==> fingerprints[k] == bytes@[20 + k],
                forall|k: int|
                    0 <= k < i ==> kv_info_bytes(#[trigger] kv_info[k]) == bytes@.subrange(
                        52 + 16 * k,
                        68 + 16 * k,
                    ),
            decreases 32 - i,
        {
            fingerprints[i] = bytes[20 + i];
            let entry: KVInfo = KVInfo::from_bytes(
                slice_subrange(bytes, 52 + 16 * i, 68 + 16 * i),
            );
            kv_info[i] = entry;
            i = i + 1;
        }
        let header = LeafHeader {
            magic: u32_from_le_bytes(slice_subrange(bytes, 0, 4)),
            bitmap,
            next: u32_from_le_bytes(slice_subrange(bytes, 8, 12)),
            ext: u32_from_le_bytes(slice_subrange(bytes, 12, 16)),
            tail_offset: u32_from_le_bytes(slice_subrange(bytes, 16, 20)),
            fingerprints,
            kv_info,
        };
        proof {
            lemma_auto_spec_u32_to_from_le_bytes();
            let src = bytes@.subrange(0, 564);
            let enc = header_bytes(header);
            lemma_header_bytes_parts(header);
            assert(bitmap@ =~= bytes@.subrange(4, 8));
            assert(fingerprints@ =~= bytes@.subrange(20, 52));
            assert forall|j: int| 0 <= j < 512 implies kv_table_bytes(kv_info@)[j] == bytes@[52
                + j] by {
                let k = j / 16;
                assert(kv_info_bytes(kv_info[k]) == bytes@.subrange(52 + 16 * k, 68 + 16 * k));
                assert(bytes@.subrange(52 + 16 * k, 68 + 16 * k)[j % 16] == bytes@[52 + j]);
            }
            assert(kv_table_bytes(kv_info@) =~= bytes@.subrange(52, 564));
            assert(enc =~= bytes@.subrange(0, 4) + bytes@.subrange(4, 8) + bytes@.subrange(8, 12)
                + bytes@.subrange(12, 16) + bytes@.subrange(16, 20) + bytes@.subrange(20, 52)
                + bytes@.subrange(52, 564));
            assert(enc =~= src);
        }
        header
    }
}

} // verus!
