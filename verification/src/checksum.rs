//! The CRC-32C checksum that guards every on-disk structure.

use vstd::prelude::*;

verus! {

/// The reflected Castagnoli polynomial.
pub const CASTAGNOLI: u32 = 0x82f6_3b78;

/// One bit of the reflected division.
pub open spec fn crc_bit(state: u32) -> u32 {
    if state & 1 == 1 {
        (state >> 1) ^ CASTAGNOLI
    } else {
        state >> 1
    }
}

/// `n` bits of the reflected division.
pub open spec fn crc_bits(state: u32, n: nat) -> u32
    decreases n,
{
    if n == 0 {
        state
    } else {
        crc_bit(crc_bits(state, (n - 1) as nat))
    }
}

/// The register after the bytes have been divided in, in order.
pub open spec fn crc_register(state: u32, bytes: Seq<u8>) -> u32
    decreases bytes.len(),
{
    if bytes.len() == 0 {
        state
    } else {
        crc_bits(crc_register(state, bytes.drop_last()) ^ (bytes.last() as u32), 8)
    }
}

/// CRC-32C continued from the checksum `crc` of what came before.
pub open spec fn crc32c_continued(crc: u32, bytes: Seq<u8>) -> u32 {
    !crc_register(!crc, bytes)
}

/// CRC-32C of a byte sequence.
pub open spec fn crc32c_of(bytes: Seq<u8>) -> u32 {
    crc32c_continued(0, bytes)
}

/// `crc32c::crc32c`: the CRC-32C of `data`. Claimed: the result is the
/// reflected Castagnoli division of the bytes, register and result
/// complemented.
#[verifier::external_body]
pub(crate) fn crc32c(data: &[u8]) -> (crc: u32)
    ensures
        crc == crc32c_of(data@),
{
    crc32c::crc32c(data)
}

/// CRC-32C continued over `bytes`, one bit at a time.
pub fn crc32c_append(crc: u32, bytes: &[u8]) -> (result: u32)
    ensures
        result == crc32c_continued(crc, bytes@),
{
    let mut state: u32 = !crc;
    let mut index: usize = 0;
    assert(bytes@.subrange(0, 0) =~= Seq::<u8>::empty());
    while index < bytes.len()
        invariant
            index <= bytes@.len(),
            state == crc_register(!crc, bytes@.subrange(0, index as int)),
        decreases bytes@.len() - index,
    {
        let ghost taken = bytes@.subrange(0, index + 1);
        assert(taken.drop_last() =~= bytes@.subrange(0, index as int));
        state = state ^ (bytes[index] as u32);
        let ghost start = state;
        let mut bit: u32 = 0;
        while bit < 8
            invariant
                bit <= 8,
                state == crc_bits(start, bit as nat),
            decreases 8 - bit,
        {
            if state & 1 == 1 {
                state = (state >> 1) ^ CASTAGNOLI;
            } else {
                state = state >> 1;
            }
            bit += 1;
        }
        index += 1;
    }
    assert(bytes@.subrange(0, bytes@.len() as int) =~= bytes@);
    !state
}

/// A checksum can be taken in pieces: continuing the checksum of the first
/// part over the second part gives the checksum of the whole.
pub proof fn law_crc32c_concatenation(crc: u32, first: Seq<u8>, second: Seq<u8>)
    ensures
        crc32c_continued(crc32c_continued(crc, first), second) == crc32c_continued(
            crc,
            first + second,
        ),
    decreases second.len(),
{
    let state = crc_register(!crc, first);
    assert(!(!state) == state) by (bit_vector);
    lemma_register_concatenation(!crc, first, second);
}

proof fn lemma_register_concatenation(state: u32, first: Seq<u8>, second: Seq<u8>)
    ensures
        crc_register(crc_register(state, first), second) == crc_register(state, first + second),
    decreases second.len(),
{
    if second.len() == 0 {
        assert(first + second =~= first);
    } else {
        lemma_register_concatenation(state, first, second.drop_last());
        assert((first + second).drop_last() =~= first + second.drop_last());
    }
}

/// Two registers that differ still differ after a bit.
proof fn lemma_bit_differs(a: u32, b: u32)
    requires
        a != b,
    ensures
        crc_bit(a) != crc_bit(b),
{
    assert((if a & 1 == 1 {
        (a >> 1) ^ 0x82f6_3b78
    } else {
        a >> 1
    }) != (if b & 1 == 1 {
        (b >> 1) ^ 0x82f6_3b78
    } else {
        b >> 1
    })) by (bit_vector)
        requires
            a != b,
    ;
}

/// Two registers that differ still differ after `n` bits.
proof fn lemma_bits_differ(a: u32, b: u32, n: nat)
    requires
        a != b,
    ensures
        crc_bits(a, n) != crc_bits(b, n),
    decreases n,
{
    if n > 0 {
        lemma_bits_differ(a, b, (n - 1) as nat);
        lemma_bit_differs(crc_bits(a, (n - 1) as nat), crc_bits(b, (n - 1) as nat));
    }
}

/// The register tells two lists apart that differ in one byte.
proof fn lemma_register_differs(state: u32, bytes: Seq<u8>, i: int, byte: u8)
    requires
        0 <= i < bytes.len(),
        bytes[i] != byte,
    ensures
        crc_register(state, bytes) != crc_register(state, bytes.update(i, byte)),
    decreases bytes.len(),
{
    let other = bytes.update(i, byte);
    let a = crc_register(state, bytes.drop_last());
    let b = crc_register(state, other.drop_last());
    let x = bytes.last() as u32;
    let y = other.last() as u32;
    if i == bytes.len() - 1 {
        assert(other.drop_last() =~= bytes.drop_last());
    } else {
        lemma_register_differs(state, bytes.drop_last(), i, byte);
        assert(other.drop_last() =~= bytes.drop_last().update(i, byte));
    }
    assert(a ^ x != b ^ y) by (bit_vector)
        requires
            (a == b && x != y) || (a != b && x == y),
    ;
    lemma_bits_differ(a ^ x, b ^ y, 8);
}

/// A checksum notices every change of a single byte.
pub proof fn law_changed_byte_is_noticed(bytes: Seq<u8>, i: int, byte: u8)
    requires
        0 <= i < bytes.len(),
        bytes[i] != byte,
    ensures
        crc32c_of(bytes) != crc32c_of(bytes.update(i, byte)),
{
    lemma_register_differs(!0u32, bytes, i, byte);
    let a = crc_register(!0u32, bytes);
    let b = crc_register(!0u32, bytes.update(i, byte));
    assert(!a != !b) by (bit_vector)
        requires
            a != b,
    ;
}

} // verus!
