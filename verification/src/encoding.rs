//! Little-endian integers and fixed-size hashes as they stand in segment files.

use vstd::prelude::*;

verus! {

/// The four bytes of `x`, least significant first.
pub open spec fn le_u32(x: u32) -> Seq<u8> {
    seq![
        (x % 0x100) as u8,
        (x / 0x100 % 0x100) as u8,
        (x / 0x1_0000 % 0x100) as u8,
        (x / 0x100_0000) as u8,
    ]
}

/// The eight bytes of `x`, least significant first.
pub open spec fn le_u64(x: u64) -> Seq<u8> {
    le_u32((x % 0x1_0000_0000) as u32) + le_u32((x / 0x1_0000_0000) as u32)
}

/// The number that a signed word stands for when its bits are read as unsigned.
pub open spec fn word_bits(x: i32) -> u32 {
    if x >= 0 {
        x as u32
    } else {
        (x + 0x1_0000_0000) as u32
    }
}

/// A hash made of one byte, 32 times.
pub open spec fn filled_hash(byte: u8) -> [u8; 32] {
    vstd::array::spec_array_fill_for_copy_type::<u8, 32>(byte)
}

/// Different words have different bytes.
pub proof fn lemma_le_u32_injective(x: u32, y: u32)
    requires
        le_u32(x) == le_u32(y),
    ensures
        x == y,
{
    let a = le_u32(x);
    let b = le_u32(y);
    assert(a[0] == b[0] && a[1] == b[1] && a[2] == b[2] && a[3] == b[3]);
}

/// Different double words have different bytes.
pub proof fn lemma_le_u64_injective(x: u64, y: u64)
    requires
        le_u64(x) == le_u64(y),
    ensures
        x == y,
{
    let x_low = (x % 0x1_0000_0000) as u32;
    let x_high = (x / 0x1_0000_0000) as u32;
    let y_low = (y % 0x1_0000_0000) as u32;
    let y_high = (y / 0x1_0000_0000) as u32;
    assert(le_u32(x_low) =~= le_u64(x).subrange(0, 4));
    assert(le_u32(y_low) =~= le_u64(y).subrange(0, 4));
    assert(le_u32(x_high) =~= le_u64(x).subrange(4, 8));
    assert(le_u32(y_high) =~= le_u64(y).subrange(4, 8));
    lemma_le_u32_injective(x_low, y_low);
    lemma_le_u32_injective(x_high, y_high);
}

/// Different signed words have different bits.
pub proof fn lemma_word_bits_injective(x: i32, y: i32)
    requires
        word_bits(x) == word_bits(y),
    ensures
        x == y,
{
}

/// Appends the four little-endian bytes of `x`.
pub fn push_u32(out: &mut Vec<u8>, x: u32)
    ensures
        final(out)@ == old(out)@ + le_u32(x),
{
    out.push((x % 0x100) as u8);
    out.push((x / 0x100 % 0x100) as u8);
    out.push((x / 0x1_0000 % 0x100) as u8);
    out.push((x / 0x100_0000) as u8);
    assert(out@ =~= old(out)@ + le_u32(x));
}

/// Reads four little-endian bytes at `at`.
pub fn read_u32(bytes: &[u8], at: usize) -> (x: u32)
    requires
        at + 4 <= bytes@.len(),
    ensures
        le_u32(x) == bytes@.subrange(at as int, at + 4),
{
    let b0: u32 = bytes[at] as u32;
    let b1: u32 = bytes[at + 1] as u32;
    let b2: u32 = bytes[at + 2] as u32;
    let b3: u32 = bytes[at + 3] as u32;
    let x: u32 = b0 + 0x100 * b1 + 0x1_0000 * b2 + 0x100_0000 * b3;
    proof {
        let lo = b0 + 0x100 * b1 + 0x1_0000 * b2;
        assert(x / 0x100_0000 == b3 && x % 0x100_0000 == lo);
        assert(x / 0x1_0000 == b2 + 0x100 * b3);
        assert(x / 0x100 == b1 + 0x100 * b2 + 0x1_0000 * b3);
        assert(le_u32(x) =~= bytes@.subrange(at as int, at + 4));
    }
    x
}

/// Reads eight little-endian bytes at `at`.
pub fn read_u64(bytes: &[u8], at: usize) -> (x: u64)
    requires
        at + 8 <= bytes.len(),
    ensures
        le_u64(x) == bytes@.subrange(at as int, at + 8),
{
    let low: u32 = read_u32(bytes, at);
    let high: u32 = read_u32(bytes, at + 4);
    let x: u64 = low as u64 + 0x1_0000_0000 * high as u64;
    assert(bytes@.subrange(at as int, at + 8) =~= le_u32(low) + le_u32(high));
    assert((x % 0x1_0000_0000) as u32 == low && (x / 0x1_0000_0000) as u32 == high);
    x
}

/// The bits of a signed word as an unsigned one.
pub fn to_bits(x: i32) -> (bits: u32)
    ensures
        bits == word_bits(x),
{
    if x >= 0 {
        x as u32
    } else {
        (x as i64 + 0x1_0000_0000) as u32
    }
}

/// The signed word with the given bits.
pub fn from_bits(bits: u32) -> (x: i32)
    ensures
        word_bits(x) == bits,
{
    if bits < 0x8000_0000 {
        bits as i32
    } else {
        (bits as i64 - 0x1_0000_0000) as i32
    }
}

/// Appends the bytes of a hash.
pub fn push_hash(out: &mut Vec<u8>, hash: &[u8; 32])
    ensures
        final(out)@ == old(out)@ + hash@,
{
    let mut i: usize = 0;
    while i < 32
        invariant
            i <= 32,
            out@ == old(out)@ + hash@.subrange(0, i as int),
        decreases 32 - i,
    {
        out.push(hash[i]);
        i += 1;
        assert(out@ =~= old(out)@ + hash@.subrange(0, i as int));
    }
    assert(hash@.subrange(0, 32) =~= hash@);
}

/// Reads the 32 bytes of a hash at `at`.
pub fn read_hash(bytes: &[u8], at: usize) -> (hash: [u8; 32])
    requires
        at + 32 <= bytes@.len(),
    ensures
        hash@ == bytes@.subrange(at as int, at + 32),
{
    let mut hash: [u8; 32] = [0u8; 32];
    let mut i: usize = 0;
    while i < 32
        invariant
            i <= 32,
            at + 32 <= bytes.len(),
            forall|j: int| 0 <= j < i ==> hash@[j] == bytes@[at + j],
        decreases 32 - i,
    {
        hash[i] = bytes[at + i];
        i += 1;
    }
    assert(hash@ =~= bytes@.subrange(at as int, at + 32));
    hash
}

/// Whether two hashes hold the same bytes.
pub fn same_hash(a: &[u8; 32], b: &[u8; 32]) -> (same: bool)
    ensures
        same == (a == b),
{
    let mut i: usize = 0;
    while i < 32
        invariant
            i <= 32,
            forall|j: int| 0 <= j < i ==> a@[j] == b@[j],
        decreases 32 - i,
    {
        if a[i] != b[i] {
            assert(a@[i as int] != b@[i as int]);
            return false;
        }
        i += 1;
    }
    assert(a@ =~= b@);
    assert(*a =~= *b);
    true
}

/// The number that the four bytes at a place make up, the least significant one first.
pub open spec fn word_at(bytes: Seq<u8>, at: int) -> int {
    bytes[at] + 0x100 * bytes[at + 1] + 0x1_0000 * bytes[at + 2] + 0x100_0000 * bytes[at + 3]
}

/// The number that the eight bytes at a place make up, the least significant one first.
pub open spec fn double_word_at(bytes: Seq<u8>, at: int) -> int {
    word_at(bytes, at) + 0x1_0000_0000 * word_at(bytes, at + 4)
}

/// The bytes of a number make up the number.
pub proof fn law_bytes_make_up_the_number(x: u32, y: u64)
    ensures
        le_u32(x).len() == 4,
        word_at(le_u32(x), 0) == x,
        le_u64(y).len() == 8,
        double_word_at(le_u64(y), 0) == y,
{
    assert(x == (x % 0x100) + 0x100 * (x / 0x100 % 0x100) + 0x1_0000 * (x / 0x1_0000 % 0x100)
        + 0x100_0000 * (x / 0x100_0000));
    let low = (y % 0x1_0000_0000) as u32;
    let high = (y / 0x1_0000_0000) as u32;
    assert(low == (low % 0x100) + 0x100 * (low / 0x100 % 0x100) + 0x1_0000 * (low / 0x1_0000
        % 0x100) + 0x100_0000 * (low / 0x100_0000));
    assert(high == (high % 0x100) + 0x100 * (high / 0x100 % 0x100) + 0x1_0000 * (high / 0x1_0000
        % 0x100) + 0x100_0000 * (high / 0x100_0000));
    let bytes = le_u64(y);
    assert(bytes[0] == le_u32(low)[0] && bytes[1] == le_u32(low)[1] && bytes[2] == le_u32(low)[2]
        && bytes[3] == le_u32(low)[3]);
    assert(bytes[4] == le_u32(high)[0] && bytes[5] == le_u32(high)[1] && bytes[6] == le_u32(
        high,
    )[2] && bytes[7] == le_u32(high)[3]);
}

/// A number that is appended stands behind what was there, and a number that is read is the one
/// that its bytes make up.
pub proof fn law_numbers_in_bytes(
    out: &mut Vec<u8>,
    pushed: u32,
    bytes: &[u8],
    at: usize,
    word: u32,
    double_word: u64,
)
    ensures
        call_ensures(push_u32, (out, pushed), ()) ==> {
            &&& final(out)@.len() == old(out)@.len() + 4
            &&& final(out)@.take(old(out)@.len() as int) == old(out)@
            &&& word_at(final(out)@, old(out)@.len() as int) == pushed
        },
        call_ensures(read_u32, (bytes, at), word) && at + 4 <= bytes@.len() ==> word_at(
            bytes@,
            at as int,
        ) == word,
        call_ensures(read_u64, (bytes, at), double_word) && at + 8 <= bytes@.len()
            ==> double_word_at(bytes@, at as int) == double_word,
{
    law_bytes_make_up_the_number(pushed, double_word);
    law_bytes_make_up_the_number(word, double_word);
    if call_ensures(push_u32, (out, pushed), ()) {
        assert(final(out)@.take(old(out)@.len() as int) =~= old(out)@);
    }
    if call_ensures(read_u32, (bytes, at), word) && at + 4 <= bytes@.len() {
        let part = bytes@.subrange(at as int, at + 4);
        assert(part[0] == bytes@[at as int] && part[1] == bytes@[at + 1] && part[2] == bytes@[at
            + 2] && part[3] == bytes@[at + 3]);
    }
    if call_ensures(read_u64, (bytes, at), double_word) && at + 8 <= bytes@.len() {
        let part = bytes@.subrange(at as int, at + 8);
        assert(forall|i: int| 0 <= i < 8 ==> #[trigger] part[i] == bytes@[at + i]);
    }
}

/// A signed number and its bits differ by a multiple of 2^32.
pub proof fn law_bits_of_a_signed_number(x: i32, bits: u32)
    ensures
        (word_bits(x) - x) % 0x1_0000_0000 == 0,
        call_ensures(to_bits, (x,), bits) ==> (bits - x) % 0x1_0000_0000 == 0,
        call_ensures(from_bits, (bits,), x) ==> (bits - x) % 0x1_0000_0000 == 0,
{
}

/// A hash is appended and read byte by byte, and two hashes are the same if all bytes are.
pub proof fn law_hashes_in_bytes(
    out: &mut Vec<u8>,
    hash: &[u8; 32],
    other: &[u8; 32],
    bytes: &[u8],
    at: usize,
    read: [u8; 32],
    same: bool,
)
    ensures
        call_ensures(push_hash, (out, hash), ()) ==> final(out)@ == old(out)@ + hash@,
        call_ensures(read_hash, (bytes, at), read) ==> forall|i: int|
            0 <= i < 32 && at + 32 <= bytes@.len() ==> #[trigger] read@[i] == bytes@[at + i],
        call_ensures(same_hash, (hash, other), same) ==> same == (hash@ == other@),
{
    if hash@ == other@ {
        assert(*hash =~= *other);
    }
}

/// A hash that is filled with a byte holds nothing else.
pub proof fn law_filled_hash(byte: u8, i: int)
    requires
        0 <= i < 32,
    ensures
        filled_hash(byte)@.len() == 32,
        filled_hash(byte)@[i] == byte,
{
}

} // verus!
