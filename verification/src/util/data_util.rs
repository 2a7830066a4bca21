use crate::amphis_error::StoreError;
use vstd::bytes::{
    lemma_auto_spec_u32_to_from_le_bytes, spec_u32_from_le_bytes, spec_u32_to_le_bytes,
    u32_from_le_bytes, u32_to_le_bytes,
};
use vstd::prelude::*;
use vstd::slice::{slice_subrange, slice_to_vec};

verus! {

/// Every pair written into a leaf page starts at a multiple of this.
pub const DATA_ALIGNMENT: usize = 4096;

/// Width of the length prefix of a slot.
pub const LEN_SIZE: usize = 4;

/// Width of the checksum that ends a slot or a header.
pub const LEN_CRC: usize = 4;

/// Bytes a slot adds to its payload.
pub const LEN_REDUNDANCY: usize = 8;

/// The CRC-32/IEEE checksum of a byte sequence.
pub uninterp spec fn crc32_ieee(data: Seq<u8>) -> u32;

/// `| size (4B, LE) | data | crc (4B, LE) |`
pub open spec fn slot_bytes(data: Seq<u8>) -> Seq<u8> {
    spec_u32_to_le_bytes(data.len() as u32) + data + spec_u32_to_le_bytes(crc32_ieee(data))
}

/// A slot whose checksum field holds `crc`, whatever the payload's checksum is.
pub open spec fn slot_bytes_with(data: Seq<u8>, crc: u32) -> Seq<u8> {
    spec_u32_to_le_bytes(data.len() as u32) + data + spec_u32_to_le_bytes(crc)
}

/// A key slot followed by a value slot.
pub open spec fn pair_bytes(key: Seq<u8>, value: Seq<u8>) -> Seq<u8> {
    slot_bytes(key) + slot_bytes(value)
}

/// Length of an encoded pair.
pub open spec fn data_size(key_size: int, value_size: int) -> int {
    key_size + value_size + 16
}

/// `size` rounded up to the next multiple of the alignment.
pub open spec fn round_up(size: int) -> int {
    ((size + 4095) / 4096) * 4096
}

/// The length that the first four bytes announce.
pub open spec fn announced_len(bytes: Seq<u8>) -> int {
    spec_u32_from_le_bytes(bytes.subrange(0, 4)) as int
}

/// The checksum held by the last four bytes.
pub open spec fn trailing_crc(bytes: Seq<u8>) -> u32 {
    spec_u32_from_le_bytes(bytes.subrange(bytes.len() - 4, bytes.len() as int))
}

/// A slot is accepted when its announced payload lies inside it and the
/// payload's checksum is the one held by the last four bytes.
pub open spec fn slot_ok(bytes: Seq<u8>) -> bool {
    &&& bytes.len() >= 4
    &&& 4 + announced_len(bytes) <= bytes.len()
    &&& crc32_ieee(bytes.subrange(4, 4 + announced_len(bytes))) == trailing_crc(bytes)
}

/// A header is accepted when the last four bytes hold the checksum of all
/// bytes before them.
pub open spec fn trailing_crc_ok(bytes: Seq<u8>) -> bool {
    &&& bytes.len() >= 4
    &&& crc32_ieee(bytes.subrange(0, bytes.len() - 4)) == trailing_crc(bytes)
}

/// Computes the checksum with `crc::crc32::checksum_ieee`, which yields the
/// CRC-32/IEEE of `data`: a function of the bytes alone.
#[verifier::external_body]
pub fn calc_crc(data: &Vec<u8>) -> (crc: u32)
    ensures
        crc == crc32_ieee(data@),
{
    crc::crc32::checksum_ieee(data)
}

/// Appends `src` to `dst`.
pub fn append_bytes(dst: &mut Vec<u8>, src: &[u8])
    ensures
        final(dst)@ == old(dst)@ + src@,
{
    let mut i: usize = 0;
    while i < src.len()
        invariant
            i <= src@.len(),
            dst@ == old(dst)@ + src@.subrange(0, i as int),
        decreases src@.len() - i,
    {
        dst.push(src[i]);
        i = i + 1;
    }
    assert(src@.subrange(0, src@.len() as int) == src@);
}

/// Appends one slot whose checksum field holds `crc`.
pub fn append_slot(out: &mut Vec<u8>, data: &Vec<u8>, crc: u32)
    requires
        data@.len() <= u32::MAX,
    ensures
        final(out)@ == old(out)@ + slot_bytes_with(data@, crc),
{
    let size: u32 = data.len() as u32;
    let size_bytes: Vec<u8> = u32_to_le_bytes(size);
    let crc_bytes: Vec<u8> = u32_to_le_bytes(crc);
    append_bytes(out, size_bytes.as_slice());
    append_bytes(out, data.as_slice());
    append_bytes(out, crc_bytes.as_slice());
    assert(out@ == old(out)@ + slot_bytes_with(data@, crc));
}

/// Encodes a key/value pair as two checked slots.
pub fn format_data_with_crc(key: &Vec<u8>, value: &Vec<u8>) -> (data: Vec<u8>)
    requires
        key@.len() <= u32::MAX,
        value@.len() <= u32::MAX,
    ensures
        data@ == pair_bytes(key@, value@),
        data@.len() == data_size(key@.len() as int, value@.len() as int),
{
    let mut data: Vec<u8> = Vec::new();
    let key_crc: u32 = calc_crc(key);
    append_slot(&mut data, key, key_crc);
    let value_crc: u32 = calc_crc(value);
    append_slot(&mut data, value, value_crc);
    proof {
        lemma_auto_spec_u32_to_from_le_bytes();
        assert(data@ == pair_bytes(key@, value@));
    }
    data
}

/// Rounds a size up to the alignment of the data arena.
pub fn round_up_size(size: usize) -> (aligned: usize)
    requires
        size + 4095 <= usize::MAX,
    ensures
        aligned == round_up(size as int),
        aligned % 4096 == 0,
        size <= aligned < size + 4096,
{
    ((size + (DATA_ALIGNMENT - 1)) / DATA_ALIGNMENT) * DATA_ALIGNMENT
}

/// Where the key's payload lies inside an encoded pair.
pub fn get_key_offset(key_size: usize) -> (range: (usize, usize))
    requires
        key_size + 4 <= usize::MAX,
    ensures
        range.0 == 4,
        range.1 == 4 + key_size,
{
    let start: usize = LEN_SIZE;
    let end: usize = LEN_SIZE + key_size;
    (start, end)
}

/// Where the value's payload lies inside an encoded pair.
pub fn get_value_offset(key_size: usize, value_size: usize) -> (range: (usize, usize))
    requires
        key_size + value_size + 12 <= usize::MAX,
    ensures
        range.0 == key_size + 12,
        range.1 == key_size + 12 + value_size,
{
    let start: usize = key_size + LEN_REDUNDANCY + LEN_SIZE;
    let end: usize = start + value_size;
    (start, end)
}

/// Length of the encoding of a pair with these payload sizes.
pub fn get_data_size(key_size: usize, value_size: usize) -> (size: usize)
    requires
        key_size + value_size + 16 <= usize::MAX,
    ensures
        size == data_size(key_size as int, value_size as int),
{
    key_size + value_size + LEN_REDUNDANCY * 2
}

/// Where the key slot ends and the value slot begins.
pub fn get_bound_offset(key_size: usize) -> (bound: usize)
    requires
        key_size + 8 <= usize::MAX,
    ensures
        bound == key_size + 8,
{
    key_size + LEN_REDUNDANCY
}

/// Compares a computed checksum with the stored one.
pub fn check_crc_value(computed: u32, stored: u32) -> (res: Result<(), StoreError>)
    ensures
        res == (if computed == stored {
            Ok::<(), StoreError>(())
        } else {
            Err::<(), StoreError>(StoreError::CrcMismatch)
        }),
{
    if computed == stored {
        Ok(())
    } else {
        Err(StoreError::CrcMismatch)
    }
}

/// Accepts `data` when its checksum is `crc`.
pub fn check_crc(data: &[u8], crc: u32) -> (res: Result<(), StoreError>)
    ensures
        res is Ok <==> crc32_ieee(data@) == crc,
        res is Err ==> res == Err::<(), StoreError>(StoreError::CrcMismatch),
{
    let owned: Vec<u8> = slice_to_vec(data);
    check_crc_value(calc_crc(&owned), crc)
}

/// Verifies one slot: the payload that the length prefix announces against
/// the checksum in the last four bytes.
pub fn check_slot_crc(bytes: &[u8]) -> (res: Result<(), StoreError>)
    ensures
        res is Ok <==> slot_ok(bytes@),
        res is Err ==> res == Err::<(), StoreError>(StoreError::CrcMismatch),
{
    let len: usize = bytes.len();
    if len < LEN_SIZE {
        return Err(StoreError::CrcMismatch);
    }
    let size: u32 = u32_from_le_bytes(slice_subrange(bytes, 0, LEN_SIZE));
    let crc: u32 = u32_from_le_bytes(slice_subrange(bytes, len - LEN_CRC, len));
    if size as usize > len - LEN_SIZE {
        return Err(StoreError::CrcMismatch);
    }
    check_crc(slice_subrange(bytes, LEN_SIZE, LEN_SIZE + size as usize), crc)
}

/// Verifies a header: all bytes but the last four against the checksum in
/// the last four.
pub fn check_header_crc(bytes: &[u8]) -> (res: Result<(), StoreError>)
    ensures
        res is Ok <==> trailing_crc_ok(bytes@),
        res is Err ==> res == Err::<(), StoreError>(StoreError::CrcMismatch),
{
    let len: usize = bytes.len();
    if len < LEN_CRC {
        return Err(StoreError::CrcMismatch);
    }
    let crc: u32 = u32_from_le_bytes(slice_subrange(bytes, len - LEN_CRC, len));
    check_crc(slice_subrange(bytes, 0, len - LEN_CRC), crc)
}

/// Bytes followed by their own checksum.
pub open spec fn with_trailing_crc(data: Seq<u8>) -> Seq<u8> {
    data + spec_u32_to_le_bytes(crc32_ieee(data))
}

/// Every encoded slot passes slot verification.
pub proof fn lemma_slot_bytes_ok(data: Seq<u8>)
    requires
        data.len() <= u32::MAX,
    ensures
        slot_bytes(data).len() == data.len() + 8,
        announced_len(slot_bytes(data)) == data.len(),
        slot_bytes(data).subrange(4, 4 + data.len() as int) == data,
        trailing_crc(slot_bytes(data)) == crc32_ieee(data),
        slot_ok(slot_bytes(data)),
{
    lemma_auto_spec_u32_to_from_le_bytes();
    let s = slot_bytes(data);
    assert(s.subrange(0, 4) == spec_u32_to_le_bytes(data.len() as u32));
    assert(s.subrange(4, 4 + data.len() as int) == data);
    assert(s.subrange(s.len() - 4, s.len() as int) == spec_u32_to_le_bytes(crc32_ieee(data)));
}

/// Bytes that end in their own checksum pass header verification.
pub proof fn lemma_trailing_crc_ok(data: Seq<u8>)
    ensures
        with_trailing_crc(data).len() == data.len() + 4,
        trailing_crc_ok(with_trailing_crc(data)),
{
    lemma_auto_spec_u32_to_from_le_bytes();
    let s = with_trailing_crc(data);
    assert(s.subrange(0, s.len() - 4) == data);
    assert(s.subrange(s.len() - 4, s.len() as int) == spec_u32_to_le_bytes(crc32_ieee(data)));
}


/// `data` with the bytes from `at` on replaced by `bytes`.
pub open spec fn splice(data: Seq<u8>, at: int, bytes: Seq<u8>) -> Seq<u8> {
    data.subrange(0, at) + bytes + data.subrange(at + bytes.len(), data.len() as int)
}

/// Overwrites `data` from `at` on with `bytes`.
pub fn write_at(data: &mut Vec<u8>, at: usize, bytes: &[u8])
    requires
        at + bytes@.len() <= old(data)@.len(),
    ensures
        final(data)@ == splice(old(data)@, at as int, bytes@),
        final(data)@.len() == old(data)@.len(),
{
    let total: usize = data.len();
    let mut i: usize = 0;
    while i < bytes.len()
        invariant
            i <= bytes@.len(),
            at + bytes@.len() <= total,
            data@.len() == total,
            data@.len() == old(data)@.len(),
            data@ == splice(old(data)@, at as int, bytes@.subrange(0, i as int)),
        decreases bytes@.len() - i,
    {
        data[at + i] = bytes[i];
        i = i + 1;
        assert(data@ =~= splice(old(data)@, at as int, bytes@.subrange(0, i as int)));
    }
    assert(bytes@.subrange(0, bytes@.len() as int) == bytes@);
}

/// Copies the bytes of `data` from `from` up to `to`.
pub fn copy_range(data: &Vec<u8>, from: usize, to: usize) -> (out: Vec<u8>)
    requires
        from <= to <= data@.len(),
    ensures
        out@ == data@.subrange(from as int, to as int),
{
    let mut out: Vec<u8> = Vec::new();
    let mut i: usize = from;
    while i < to
        invariant
            from <= i <= to <= data@.len(),
            out@ == data@.subrange(from as int, i as int),
        decreases to - i,
    {
        out.push(data[i]);
        i = i + 1;
        assert(out@ =~= data@.subrange(from as int, i as int));
    }
    out
}

} // verus!
