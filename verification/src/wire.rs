//! Little-endian numbers, and fields laid one behind the other in a buffer.

use vstd::prelude::*;

verus! {

/// The four bytes of `v`, the least significant first.
pub open spec fn le32(v: u32) -> Seq<u8> {
    seq![
        (v % 256) as u8,
        ((v / 256) % 256) as u8,
        ((v / 65536) % 256) as u8,
        (v / 16777216) as u8,
    ]
}

/// The number whose four bytes, the least significant first, are `b`.
pub open spec fn from_le32(b: Seq<u8>) -> int {
    b[0] + 256 * b[1] + 65536 * b[2] + 16777216 * b[3]
}

/// The eight bytes of `v`, the least significant first.
pub open spec fn le64(v: u64) -> Seq<u8> {
    le32((v % 0x1_0000_0000) as u32) + le32((v / 0x1_0000_0000) as u32)
}

/// `v` in two's complement, on eight bytes.
pub open spec fn le_i64(v: i64) -> Seq<u8> {
    le64(if v >= 0 { v as u64 } else { (v + 0x1_0000_0000_0000_0000) as u64 })
}

/// `v` in two's complement, on four bytes.
pub open spec fn le_i32(v: i32) -> Seq<u8> {
    le32(if v >= 0 { v as u32 } else { (v + 0x1_0000_0000) as u32 })
}

/// A flag takes one byte.
pub open spec fn flag(b: bool) -> u8 {
    if b { 1 } else { 0 }
}

/// Four bytes read back give the number that was written.
pub proof fn lemma_le32_round_trip(v: u32)
    ensures
        le32(v).len() == 4,
        from_le32(le32(v)) == v,
{
}

/// Two numbers with the same four bytes are the same.
pub proof fn lemma_le32_injective(a: u32, b: u32)
    requires
        le32(a) == le32(b),
    ensures
        a == b,
{
    lemma_le32_round_trip(a);
    lemma_le32_round_trip(b);
}

/// Two numbers with the same eight bytes are the same.
pub proof fn lemma_le64_injective(a: u64, b: u64)
    requires
        le64(a) == le64(b),
    ensures
        a == b,
{
    let (al, ah) = ((a % 0x1_0000_0000) as u32, (a / 0x1_0000_0000) as u32);
    let (bl, bh) = ((b % 0x1_0000_0000) as u32, (b / 0x1_0000_0000) as u32);
    assert(le64(a).subrange(0, 4) =~= le32(al));
    assert(le64(b).subrange(0, 4) =~= le32(bl));
    assert(le64(a).subrange(4, 8) =~= le32(ah));
    assert(le64(b).subrange(4, 8) =~= le32(bh));
    lemma_le32_injective(al, bl);
    lemma_le32_injective(ah, bh);
}

/// Two signed numbers with the same eight bytes are the same.
pub proof fn lemma_le_i64_injective(a: i64, b: i64)
    requires
        le_i64(a) == le_i64(b),
    ensures
        a == b,
{
    lemma_le64_injective(
        if a >= 0 { a as u64 } else { (a + 0x1_0000_0000_0000_0000) as u64 },
        if b >= 0 { b as u64 } else { (b + 0x1_0000_0000_0000_0000) as u64 },
    );
}

/// Two signed numbers with the same four bytes are the same.
pub proof fn lemma_le_i32_injective(a: i32, b: i32)
    requires
        le_i32(a) == le_i32(b),
    ensures
        a == b,
{
    lemma_le32_injective(
        if a >= 0 { a as u32 } else { (a + 0x1_0000_0000) as u32 },
        if b >= 0 { b as u32 } else { (b + 0x1_0000_0000) as u32 },
    );
}

/// The four bytes of a number are its digits to the base 256, the least significant first.
pub proof fn lemma_le32_digits(v: u32)
    ensures
        le32(v).len() == 4,
        v == le32(v)[0] + 256 * le32(v)[1] + 65536 * le32(v)[2] + 16777216 * le32(v)[3],
{
}

/// Four bytes, whichever they are, are the bytes of the number that is read from them.
pub proof fn lemma_from_le32_round_trip(b: Seq<u8>)
    requires
        b.len() == 4,
    ensures
        0 <= from_le32(b) <= u32::MAX,
        le32(from_le32(b) as u32) == b,
{
    let v = from_le32(b);
    let (b0, b1, b2, b3) = (b[0] as int, b[1] as int, b[2] as int, b[3] as int);
    let d1 = b1 + 256 * b2 + 65536 * b3;
    let d2 = b2 + 256 * b3;
    assert(v == b0 + 256 * d1);
    assert(v == b0 + 256 * b1 + 65536 * d2);
    assert(v % 256 == b0 && v / 256 == d1);
    assert(d1 == b1 + 256 * d2);
    assert(d1 % 256 == b1);
    assert(v / 65536 == d2);
    assert(d2 % 256 == b2);
    assert(v / 16777216 == b3);
    assert(le32(v as u32) =~= b);
}

/// The eight bytes of a number are its digits to the base 256, the least significant first.
pub proof fn lemma_le64_digits(v: u64)
    ensures
        le64(v).len() == 8,
        v == le64(v)[0] + 0x100 * le64(v)[1] + 0x1_0000 * le64(v)[2] + 0x100_0000 * le64(v)[3]
            + 0x1_0000_0000 * le64(v)[4] + 0x100_0000_0000 * le64(v)[5] + 0x1_0000_0000_0000
            * le64(v)[6] + 0x100_0000_0000_0000 * le64(v)[7],
{
    let (low, high) = ((v % 0x1_0000_0000) as u32, (v / 0x1_0000_0000) as u32);
    lemma_le32_digits(low);
    lemma_le32_digits(high);
    assert forall|i: int| 0 <= i < 4 implies le64(v)[i] == le32(low)[i] && le64(v)[i + 4] == le32(
        high,
    )[i] by {}
    assert(le64(v)[4] == le32(high)[0]);
    assert(le64(v)[5] == le32(high)[1]);
    assert(le64(v)[6] == le32(high)[2]);
    assert(le64(v)[7] == le32(high)[3]);
}

/// The eight bytes of a signed number are the digits of the number that has the same residue and is
/// not negative.
pub proof fn lemma_le_i64_digits(v: i64)
    ensures
        le_i64(v).len() == 8,
        (if v < 0 {
            v + 0x1_0000_0000_0000_0000
        } else {
            v as int
        }) == le_i64(v)[0] + 0x100 * le_i64(v)[1] + 0x1_0000 * le_i64(v)[2] + 0x100_0000
            * le_i64(v)[3] + 0x1_0000_0000 * le_i64(v)[4] + 0x100_0000_0000 * le_i64(v)[5]
            + 0x1_0000_0000_0000 * le_i64(v)[6] + 0x100_0000_0000_0000 * le_i64(v)[7],
{
    lemma_le64_digits(
        if v >= 0 {
            v as u64
        } else {
            (v + 0x1_0000_0000_0000_0000) as u64
        },
    );
}

/// The four bytes of a signed number are the digits of the number that has the same residue and is
/// not negative.
pub proof fn lemma_le_i32_digits(v: i32)
    ensures
        le_i32(v).len() == 4,
        (if v < 0 {
            v + 0x1_0000_0000
        } else {
            v as int
        }) == le_i32(v)[0] + 256 * le_i32(v)[1] + 65536 * le_i32(v)[2] + 16777216 * le_i32(v)[3],
{
}

/// A flag is sent as 1 where it is set, and as 0 where it is not.
pub proof fn lemma_flag(b: bool)
    ensures
        flag(b) <= 1,
        flag(b) == 1 <==> b,
{
}

/// A field that is put into a buffer is there to be read, and every other byte stays.
pub proof fn lemma_field_is_placed(buffer: Seq<u8>, offset: int, field: Seq<u8>)
    requires
        0 <= offset,
        offset + field.len() <= buffer.len(),
    ensures
        with_field(buffer, offset, field).len() == buffer.len(),
        with_field(buffer, offset, field).subrange(offset, offset + field.len()) == field,
        forall|j: int|
            0 <= j < buffer.len() && !(offset <= j < offset + field.len()) ==> with_field(
                buffer,
                offset,
                field,
            )[j] == buffer[j],
{
    assert(with_field(buffer, offset, field).subrange(offset, offset + field.len()) =~= field);
}

/// The little-endian bytes of `v`.
pub fn u32_to_le(v: u32) -> (bytes: [u8; 4])
    ensures
        bytes@ == le32(v),
{
    let bytes: [u8; 4] = [
        (v % 256) as u8,
        ((v / 256) % 256) as u8,
        ((v / 65536) % 256) as u8,
        (v / 16777216) as u8,
    ];
    assert(bytes@ =~= le32(v));
    bytes
}

/// The number whose little-endian bytes are `b0` to `b3`.
pub fn u32_from_le(b0: u8, b1: u8, b2: u8, b3: u8) -> (v: u32)
    ensures
        v == from_le32(seq![b0, b1, b2, b3]),
{
    b0 as u32 + 256 * (b1 as u32) + 65536 * (b2 as u32) + 16777216 * (b3 as u32)
}

/// The little-endian bytes of `v`.
pub fn u64_to_le(v: u64) -> (bytes: [u8; 8])
    ensures
        bytes@ == le64(v),
{
    let low = u32_to_le((v % 0x1_0000_0000) as u32);
    let high = u32_to_le((v / 0x1_0000_0000) as u32);
    let bytes: [u8; 8] = [low[0], low[1], low[2], low[3], high[0], high[1], high[2], high[3]];
    assert(bytes@ =~= low@ + high@);
    bytes
}

/// The little-endian bytes of `v` in two's complement.
pub fn i64_to_le(v: i64) -> (bytes: [u8; 8])
    ensures
        bytes@ == le_i64(v),
{
    assert(v < 0 ==> (v as u64) == v + 0x1_0000_0000_0000_0000) by (bit_vector);
    u64_to_le(v as u64)
}

/// The little-endian bytes of `v` in two's complement.
pub fn i32_to_le(v: i32) -> (bytes: [u8; 4])
    ensures
        bytes@ == le_i32(v),
{
    assert(v < 0 ==> (v as u32) == v + 0x1_0000_0000) by (bit_vector);
    u32_to_le(v as u32)
}

/// The byte of a flag.
pub fn flag_byte(b: bool) -> (byte: u8)
    ensures
        byte == flag(b),
{
    if b { 1 } else { 0 }
}

/// `buffer` with `field` in the place of the bytes from `offset` on.
pub open spec fn with_field(buffer: Seq<u8>, offset: int, field: Seq<u8>) -> Seq<u8> {
    buffer.take(offset) + field + buffer.skip(offset + field.len())
}

/// Copies `field` into `buffer` at `offset`, and returns the offset behind it.
pub fn put_field(buffer: &mut [u8], offset: usize, field: &[u8]) -> (end: usize)
    requires
        offset + field@.len() <= old(buffer)@.len(),
    ensures
        end == offset + field@.len(),
        final(buffer)@ == with_field(old(buffer)@, offset as int, field@),
{
    let room: usize = buffer.len();
    let mut i: usize = 0;
    assert(buffer@ =~= with_field(buffer@, offset as int, field@.take(0)));
    while i < field.len()
        invariant
            i <= field@.len(),
            room == old(buffer)@.len(),
            offset + field@.len() <= old(buffer)@.len(),
            buffer@ == with_field(old(buffer)@, offset as int, field@.take(i as int)),
        decreases field@.len() - i,
    {
        buffer[offset + i] = field[i];
        i += 1;
        assert(buffer@ =~= with_field(old(buffer)@, offset as int, field@.take(i as int)));
    }
    assert(field@.take(i as int) =~= field@);
    offset + i
}

/// `buffer` with `fields` from `start` on, for use where many fields follow each other.
#[verifier::opaque]
pub(crate) closed spec fn laid_out(buffer: Seq<u8>, start: int, fields: Seq<u8>) -> Seq<u8> {
    with_field(buffer, start, fields)
}

/// What `laid_out` stands for.
pub(crate) proof fn lemma_laid_out(buffer: Seq<u8>, start: int, fields: Seq<u8>)
    ensures
        laid_out(buffer, start, fields) == with_field(buffer, start, fields),
{
    reveal(laid_out);
}

/// Puts `field` into `buffer` behind the fields that were put from `start` on, and returns the
/// offset behind it. `before` is what the buffer held before the first of them.
pub(crate) fn append_field(
    buffer: &mut [u8],
    offset: usize,
    field: &[u8],
    Ghost(before): Ghost<Seq<u8>>,
    Ghost(start): Ghost<int>,
    Ghost(fields): Ghost<Seq<u8>>,
) -> (end: usize)
    requires
        0 <= start,
        offset == start + fields.len(),
        offset + field@.len() <= before.len(),
        old(buffer)@ == laid_out(before, start, fields),
    ensures
        end == start + (fields + field@).len(),
        final(buffer)@ == laid_out(before, start, fields + field@),
{
    proof {
        reveal(laid_out);
    }
    let end = put_field(buffer, offset, field);
    assert(buffer@ =~= with_field(before, start, fields + field@));
    end
}

} // verus!
