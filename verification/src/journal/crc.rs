//! CRC-32 (IEEE), the checksum of journal records.

use vstd::prelude::*;

verus! {

/// The polynomial, lowest bit for the highest power.
pub const POLYNOMIAL: u32 = 0xedb8_8320;

/// The remainder after one more bit.
pub open spec fn after_bit(state: u32) -> u32 {
    if state & 1 == 1 {
        (state >> 1) ^ POLYNOMIAL
    } else {
        state >> 1
    }
}

/// The remainder after `n` more bits.
pub open spec fn after_bits(state: u32, n: nat) -> u32
    decreases n,
{
    if n == 0 {
        state
    } else {
        after_bit(after_bits(state, (n - 1) as nat))
    }
}

/// The remainder after these bytes, from all ones.
pub open spec fn remainder(data: Seq<u8>) -> u32
    decreases data.len(),
{
    if data.len() == 0 {
        0xffff_ffff
    } else {
        after_bits(remainder(data.drop_last()) ^ data.last() as u32, 8)
    }
}

/// The CRC-32 (IEEE) checksum of a byte string: its remainder with every bit inverted.
pub open spec fn crc32(data: Seq<u8>) -> u32 {
    !remainder(data)
}

/// `crc32fast::Hasher`: a new hasher, updated with both slices in turn and finalized, gives the
/// CRC-32 (IEEE) of the two put together. The hasher counts its bytes in a `u64`.
#[verifier::external_body]
pub(crate) fn crc32_of(first: &[u8], second: &[u8]) -> (r: u32)
    requires
        first@.len() + second@.len() <= u64::MAX,
    ensures
        r == crc32(first@ + second@),
{
    let mut hasher = crc32fast::Hasher::new();
    hasher.update(first);
    hasher.update(second);
    hasher.finalize()
}

/// Different remainders stay different.
proof fn lemma_bits_tell_apart(a: u32, b: u32, n: nat)
    requires
        a != b,
    ensures
        after_bits(a, n) != after_bits(b, n),
    decreases n,
{
    if n > 0 {
        lemma_bits_tell_apart(a, b, (n - 1) as nat);
        let x = after_bits(a, (n - 1) as nat);
        let y = after_bits(b, (n - 1) as nat);
        assert(x != y ==> after_bit(x) != after_bit(y)) by (bit_vector);
    }
}

/// Byte strings of one length that differ in a single byte have different checksums.
pub proof fn law_a_changed_byte_changes_the_checksum(data: Seq<u8>, at: int, byte: u8)
    requires
        0 <= at < data.len(),
        byte != data[at],
    ensures
        crc32(data.update(at, byte)) != crc32(data),
{
    lemma_remainders_differ(data, at, byte);
    let x = remainder(data.update(at, byte));
    let y = remainder(data);
    assert(x != y ==> !x != !y) by (bit_vector);
}

proof fn lemma_remainders_differ(data: Seq<u8>, at: int, byte: u8)
    requires
        0 <= at < data.len(),
        byte != data[at],
    ensures
        remainder(data.update(at, byte)) != remainder(data),
    decreases data.len(),
{
    let changed = data.update(at, byte);
    let (x, y) = (remainder(changed.drop_last()), remainder(data.drop_last()));
    let (p, q) = (changed.last(), data.last());
    if at == data.len() - 1 {
        assert(changed.drop_last() =~= data.drop_last());
        assert(p != q ==> x ^ p as u32 != x ^ q as u32) by (bit_vector);
    } else {
        lemma_remainders_differ(data.drop_last(), at, byte);
        assert(changed.drop_last() =~= data.drop_last().update(at, byte));
        assert(x != y ==> x ^ q as u32 != y ^ q as u32) by (bit_vector);
    }
    lemma_bits_tell_apart(x ^ p as u32, y ^ q as u32, 8);
}

} // verus!
