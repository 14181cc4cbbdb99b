//! The patch stream: a 16-byte header, then control entries of 24 bytes, each followed by
//! its diff bytes and its literal bytes, and last an entry of zeros. Integers are stored
//! big-endian.

use vstd::prelude::*;
use byteorder::BigEndian;
use zerocopy::{I64, U64};
use crate::Error;

verus! {

/// The first eight bytes of every patch, `DDELTA40` in ASCII.
pub const DDELTA_MAGIC: [u8; 8] = [0x44, 0x44, 0x45, 0x4C, 0x54, 0x41, 0x34, 0x30];

/// Length of a patch header in bytes.
pub const HEADER_LEN: usize = 16;

/// Length of a control entry in bytes.
pub const ENTRY_LEN: usize = 24;

/// The eight big-endian bytes of `v`, for `0 <= v < 2^64`: its digits in base 256, the most
/// significant first.
#[verifier::opaque]
pub open spec fn be64(v: int) -> Seq<u8> {
    let v1 = v / 0x100;
    let v2 = v1 / 0x100;
    let v3 = v2 / 0x100;
    let v4 = v3 / 0x100;
    let v5 = v4 / 0x100;
    let v6 = v5 / 0x100;
    let v7 = v6 / 0x100;
    seq![
        (v7 % 0x100) as u8,
        (v6 % 0x100) as u8,
        (v5 % 0x100) as u8,
        (v4 % 0x100) as u8,
        (v3 % 0x100) as u8,
        (v2 % 0x100) as u8,
        (v1 % 0x100) as u8,
        (v % 0x100) as u8,
    ]
}

/// The number whose big-endian bytes are the first eight of `b`.
#[verifier::opaque]
pub open spec fn be64_value(b: Seq<u8>) -> int {
    ((((((b[0] * 0x100 + b[1]) * 0x100 + b[2]) * 0x100 + b[3]) * 0x100 + b[4]) * 0x100 + b[5])
        * 0x100 + b[6]) * 0x100 + b[7]
}

/// The unsigned number with the same 64 bits as `v` in two's complement.
pub open spec fn to_unsigned(v: int) -> int {
    if v < 0 {
        v + 0x1_0000_0000_0000_0000
    } else {
        v
    }
}

/// The signed number with the same 64 bits as `u` in two's complement.
pub open spec fn to_signed(u: int) -> int {
    if u >= 0x8000_0000_0000_0000 {
        u - 0x1_0000_0000_0000_0000
    } else {
        u
    }
}

/// Decoding undoes encoding.
pub proof fn lemma_be64_value_of_be64(v: int)
    requires
        0 <= v < 0x1_0000_0000_0000_0000,
    ensures
        be64(v).len() == 8,
        be64_value(be64(v)) == v,
{
    reveal(be64);
    reveal(be64_value);
}

/// Encoding undoes decoding.
pub proof fn lemma_be64_of_be64_value(b: Seq<u8>)
    requires
        b.len() == 8,
    ensures
        0 <= be64_value(b) < 0x1_0000_0000_0000_0000,
        be64(be64_value(b)) == b,
{
    reveal(be64);
    reveal(be64_value);
    let w1 = b[0] * 0x100 + b[1];
    let w2 = w1 * 0x100 + b[2];
    let w3 = w2 * 0x100 + b[3];
    let w4 = w3 * 0x100 + b[4];
    let w5 = w4 * 0x100 + b[5];
    let w6 = w5 * 0x100 + b[6];
    let w7 = w6 * 0x100 + b[7];
    assert(w7 / 0x100 == w6 && w7 % 0x100 == b[7]);
    assert(w6 / 0x100 == w5 && w6 % 0x100 == b[6]);
    assert(w5 / 0x100 == w4 && w5 % 0x100 == b[5]);
    assert(w4 / 0x100 == w3 && w4 % 0x100 == b[4]);
    assert(w3 / 0x100 == w2 && w3 % 0x100 == b[3]);
    assert(w2 / 0x100 == w1 && w2 % 0x100 == b[2]);
    assert(w1 / 0x100 == b[0] && w1 % 0x100 == b[1]);
    assert(be64(w7) =~= b);
}

/// Calls `zerocopy::U64::<BigEndian>::new` and takes the bytes out of what it returns.
/// Taken on trust: they are the eight bytes of `value`, the most significant first.
#[verifier::external_body]
fn u64_to_be(value: u64) -> (bytes: [u8; 8])
    ensures
        bytes@ == be64(value as int),
{
    U64::<BigEndian>::new(value).into()
}

/// Calls `zerocopy::U64::<BigEndian>::get` on the given bytes. Taken on trust: the result
/// is the number that the bytes hold, the most significant first.
#[verifier::external_body]
fn u64_from_be(bytes: [u8; 8]) -> (value: u64)
    ensures
        value == be64_value(bytes@),
{
    U64::<BigEndian>::from_bytes(bytes).get()
}

/// Calls `zerocopy::I64::<BigEndian>::new` and takes the bytes out of what it returns.
/// Taken on trust: they are the eight bytes of `value` in two's complement, the most
/// significant first.
#[verifier::external_body]
fn i64_to_be(value: i64) -> (bytes: [u8; 8])
    ensures
        bytes@ == be64(to_unsigned(value as int)),
{
    I64::<BigEndian>::new(value).into()
}

/// Calls `zerocopy::I64::<BigEndian>::get` on the given bytes. Taken on trust: the result
/// is the number that the bytes hold in two's complement, the most significant first.
#[verifier::external_body]
fn i64_from_be(bytes: [u8; 8]) -> (value: i64)
    ensures
        value == to_signed(be64_value(bytes@)),
{
    I64::<BigEndian>::from_bytes(bytes).get()
}

/// The eight bytes of `data` from `pos` on.
fn take8(data: &[u8], pos: usize) -> (bytes: [u8; 8])
    requires
        pos + 8 <= data.len(),
    ensures
        bytes@ == data@.subrange(pos as int, pos + 8),
{
    let bytes = [
        data[pos],
        data[pos + 1],
        data[pos + 2],
        data[pos + 3],
        data[pos + 4],
        data[pos + 5],
        data[pos + 6],
        data[pos + 7],
    ];
    assert(bytes@ =~= data@.subrange(pos as int, pos + 8));
    bytes
}

/// The fixed-size record in front of every block of payload, and at the end of a patch.
#[derive(Eq, PartialEq, Copy, Clone, Debug, Structural)]
pub struct EntryHeader {
    /// Number of diff bytes that follow; each is added to a byte of the old data.
    pub diff: u64,
    /// Number of literal bytes that follow the diff bytes.
    pub extra: u64,
    /// Distance to move in the old data once both runs are done.
    pub seek: i64,
}

impl EntryHeader {
    /// The 24 bytes of this entry on the wire.
    pub open spec fn bytes(self) -> Seq<u8> {
        be64(self.diff as int) + be64(self.extra as int) + be64(to_unsigned(self.seek as int))
    }

    /// The entry that the first 24 bytes of `b` hold.
    pub open spec fn parse(b: Seq<u8>) -> EntryHeader {
        EntryHeader {
            diff: be64_value(b.subrange(0, 8)) as u64,
            extra: be64_value(b.subrange(8, 16)) as u64,
            seek: to_signed(be64_value(b.subrange(16, 24))) as i64,
        }
    }

    /// The entry that ends a patch: all three fields are zero.
    pub open spec fn is_end(self) -> bool {
        self.diff == 0 && self.extra == 0 && self.seek == 0
    }
}

/// The record at the start of a patch.
#[derive(Copy, Clone, Debug)]
pub struct PatchHeader {
    /// The eight bytes found where the magic belongs.
    pub magic: [u8; 8],
    /// Length of the data that the patch produces.
    pub new_file_size: u64,
}

/// The 16 bytes of a header that announces `len` bytes of new data.
pub open spec fn header_bytes(len: u64) -> Seq<u8> {
    DDELTA_MAGIC@ + be64(len as int)
}

/// The 24 zero bytes that end a patch.
pub open spec fn ending_bytes() -> Seq<u8> {
    (EntryHeader { diff: 0, extra: 0, seek: 0 }).bytes()
}

/// Parsing an entry's bytes gives the entry back.
pub proof fn lemma_entry_round_trip(e: EntryHeader)
    ensures
        e.bytes().len() == ENTRY_LEN,
        EntryHeader::parse(e.bytes()) == e,
{
    let b = e.bytes();
    lemma_be64_value_of_be64(e.diff as int);
    lemma_be64_value_of_be64(e.extra as int);
    lemma_be64_value_of_be64(to_unsigned(e.seek as int));
    assert(b.subrange(0, 8) =~= be64(e.diff as int));
    assert(b.subrange(8, 16) =~= be64(e.extra as int));
    assert(b.subrange(16, 24) =~= be64(to_unsigned(e.seek as int)));
}

/// A header is 16 bytes: the magic `DDELTA40`, then the size with its most significant
/// byte first.
pub proof fn lemma_header_bytes(len: u64)
    ensures
        header_bytes(len).len() == HEADER_LEN,
        header_bytes(len).subrange(0, 8) == DDELTA_MAGIC@,
        DDELTA_MAGIC@ == seq![0x44u8, 0x44u8, 0x45u8, 0x4Cu8, 0x54u8, 0x41u8, 0x34u8, 0x30u8],
        header_bytes(len).subrange(8, 16) == be64(len as int),
        be64_value(header_bytes(len).subrange(8, 16)) == len,
{
    lemma_be64_value_of_be64(len as int);
    assert(header_bytes(len).subrange(0, 8) =~= DDELTA_MAGIC@);
    assert(header_bytes(len).subrange(8, 16) =~= be64(len as int));
    assert(DDELTA_MAGIC@ =~= seq![
        0x44u8,
        0x44u8,
        0x45u8,
        0x4Cu8,
        0x54u8,
        0x41u8,
        0x34u8,
        0x30u8,
    ]);
}

/// The ending is 24 zero bytes.
pub proof fn lemma_ending_is_zero()
    ensures
        ending_bytes() == Seq::new(24, |i: int| 0u8),
{
    reveal(be64);
    assert(ending_bytes() =~= Seq::new(24, |i: int| 0u8));
}

/// Appends a patch header that announces `len` bytes of new data.
pub fn write_header(patch: &mut Vec<u8>, len: u64)
    ensures
        final(patch)@ == old(patch)@ + header_bytes(len),
{
    let size = u64_to_be(len);
    patch.extend_from_slice(DDELTA_MAGIC.as_slice());
    patch.extend_from_slice(size.as_slice());
    assert(patch@ =~= old(patch)@ + header_bytes(len));
}

/// Appends a control entry.
pub fn write_entry(patch: &mut Vec<u8>, entry: EntryHeader)
    ensures
        final(patch)@ == old(patch)@ + entry.bytes(),
{
    let diff = u64_to_be(entry.diff);
    let extra = u64_to_be(entry.extra);
    let seek = i64_to_be(entry.seek);
    patch.extend_from_slice(diff.as_slice());
    patch.extend_from_slice(extra.as_slice());
    patch.extend_from_slice(seek.as_slice());
    assert(patch@ =~= old(patch)@ + entry.bytes());
}

/// Appends the entry of zeros that ends a patch.
pub fn write_ending(patch: &mut Vec<u8>)
    ensures
        final(patch)@ == old(patch)@ + ending_bytes(),
{
    write_entry(patch, EntryHeader { diff: 0, extra: 0, seek: 0 });
}

/// Reads the patch header that starts at `pos`, if 16 bytes are left there.
pub fn read_header(patch: &[u8], pos: usize) -> (r: Result<PatchHeader, Error>)
    ensures
        r is Ok <==> pos + HEADER_LEN <= patch.len(),
        r matches Ok(h) ==> h.magic@ == patch@.subrange(pos as int, pos + 8)
            && h.new_file_size == be64_value(patch@.subrange(pos + 8, pos + 16)),
        r matches Err(e) ==> e == Error::PatchTruncated,
{
    if pos > patch.len() || patch.len() - pos < HEADER_LEN {
        return Err(Error::PatchTruncated);
    }
    let magic = take8(patch, pos);
    let size = take8(patch, pos + 8);
    Ok(PatchHeader { magic, new_file_size: u64_from_be(size) })
}

/// Reads the control entry that starts at `pos`, if 24 bytes are left there.
pub fn read_entry(patch: &[u8], pos: usize) -> (r: Result<EntryHeader, Error>)
    ensures
        r is Ok <==> pos + ENTRY_LEN <= patch.len(),
        r matches Ok(e) ==> e == EntryHeader::parse(patch@.subrange(pos as int, pos + 24)),
        r matches Err(e) ==> e == Error::PatchTruncated,
{
    if pos > patch.len() || patch.len() - pos < ENTRY_LEN {
        return Err(Error::PatchTruncated);
    }
    let diff = take8(patch, pos);
    let extra = take8(patch, pos + 8);
    let seek = take8(patch, pos + 16);
    proof {
        let b = patch@.subrange(pos as int, pos + 24);
        assert(b.subrange(0, 8) =~= diff@);
        assert(b.subrange(8, 16) =~= extra@);
        assert(b.subrange(16, 24) =~= seek@);
        lemma_be64_of_be64_value(diff@);
        lemma_be64_of_be64_value(extra@);
        lemma_be64_of_be64_value(seek@);
    }
    Ok(EntryHeader { diff: u64_from_be(diff), extra: u64_from_be(extra), seek: i64_from_be(seek) })
}

/// Tells whether `magic` holds the bytes that a patch starts with.
pub fn is_magic(magic: &[u8; 8]) -> (r: bool)
    ensures
        r == (magic@ == DDELTA_MAGIC@),
{
    let mut i: usize = 0;
    while i < 8
        invariant
            i <= 8,
            forall|j: int| 0 <= j < i ==> magic@[j] == DDELTA_MAGIC@[j],
        decreases 8 - i,
    {
        if magic[i] != DDELTA_MAGIC[i] {
            return false;
        }
        i += 1;
    }
    assert(magic@ =~= DDELTA_MAGIC@);
    true
}

} // verus!
