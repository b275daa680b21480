//! Little-endian integers in byte buffers.

use vstd::prelude::*;

verus! {

/// The last `width` bytes of `n`, least significant first.
pub open spec fn le(n: nat, width: nat) -> Seq<u8>
    decreases width,
{
    if width == 0 {
        Seq::empty()
    } else {
        seq![(n % 256) as u8] + le(n / 256, (width - 1) as nat)
    }
}

/// The number that `bytes` spell, least significant first.
pub open spec fn from_le(bytes: Seq<u8>) -> nat
    decreases bytes.len(),
{
    if bytes.len() == 0 {
        0
    } else {
        bytes[0] as nat + 256 * from_le(bytes.skip(1))
    }
}

/// 256 to the power of `n`.
pub open spec fn pow256(n: nat) -> nat
    decreases n,
{
    if n == 0 {
        1
    } else {
        256 * pow256((n - 1) as nat)
    }
}

/// What fits in `width` bytes comes back from them.
pub proof fn lemma_round_trip(n: nat, width: nat)
    requires
        n < pow256(width),
    ensures
        le(n, width).len() == width,
        from_le(le(n, width)) == n,
    decreases width,
{
    if width > 0 {
        lemma_round_trip(n / 256, (width - 1) as nat);
        let whole = le(n, width);
        assert(whole.skip(1) =~= le(n / 256, (width - 1) as nat));
    }
}

/// The length of an integer's bytes does not depend on its value.
pub proof fn lemma_le_len(n: nat, width: nat)
    ensures
        le(n, width).len() == width,
    decreases width,
{
    if width > 0 {
        lemma_le_len(n / 256, (width - 1) as nat);
    }
}

/// What bytes spell fits in as many bytes, and spells them back.
pub proof fn lemma_from_le(bytes: Seq<u8>)
    ensures
        from_le(bytes) < pow256(bytes.len()),
        le(from_le(bytes), bytes.len()) == bytes,
    decreases bytes.len(),
{
    if bytes.len() > 0 {
        let rest = bytes.skip(1);
        lemma_from_le(rest);
        let n = from_le(bytes);
        assert(n % 256 == bytes[0]);
        assert(n / 256 == from_le(rest));
        assert(seq![bytes[0]] + rest =~= bytes);
    }
}

/// The sizes of the integer types.
pub proof fn lemma_sizes()
    ensures
        pow256(2) == 0x1_0000,
        pow256(4) == 0x1_0000_0000,
        pow256(8) == 0x1_0000_0000_0000_0000,
{
    reveal_with_fuel(pow256, 9);
}

/// Powers of 256 grow with the exponent.
proof fn lemma_pow256_grows(a: nat, b: nat)
    requires
        a <= b,
    ensures
        0 < pow256(a) <= pow256(b),
    decreases b,
{
    if a < b {
        lemma_pow256_grows(a, (b - 1) as nat);
    } else if b > 0 {
        lemma_pow256_grows((a - 1) as nat, (b - 1) as nat);
    }
}

/// Copies `bytes` into `buf` at `at`.
pub fn put_bytes(buf: &mut [u8], at: usize, bytes: &[u8])
    requires
        at + bytes@.len() <= old(buf)@.len(),
    ensures
        final(buf)@ == old(buf)@.take(at as int) + bytes@ + old(buf)@.skip(at + bytes@.len()),
        final(buf)@.len() == old(buf)@.len(),
{
    let mut i: usize = 0;
    assert(buf@ =~= old(buf)@.take(at as int) + bytes@.take(0) + old(buf)@.skip(at as int));
    while i < bytes.len()
        invariant
            i <= bytes.len(),
            at + bytes.len() <= buf.len(),
            buf@.len() == old(buf)@.len(),
            buf@ == old(buf)@.take(at as int) + bytes@.take(i as int) + old(buf)@.skip(at + i),
        decreases bytes.len() - i,
    {
        buf[at + i] = bytes[i];
        assert(buf@ =~= old(buf)@.take(at as int) + bytes@.take(i + 1) + old(buf)@.skip(
            at + i + 1,
        ));
        i = i + 1;
    }
    assert(bytes@.take(i as int) =~= bytes@);
}

/// Writes the last `width` bytes of `value` into `buf` at `at`.
pub fn put_le(buf: &mut [u8], at: usize, value: u64, width: usize)
    requires
        at + width <= old(buf)@.len(),
    ensures
        final(buf)@ == old(buf)@.take(at as int) + le(value as nat, width as nat) + old(buf)@.skip(
            at + width,
        ),
        final(buf)@.len() == old(buf)@.len(),
{
    let mut rest: u64 = value;
    let mut i: usize = 0;
    let ghost all = le(value as nat, width as nat);
    proof {
        lemma_le_len(value as nat, width as nat);
        assert(all.skip(0) =~= all);
        assert(buf@ =~= old(buf)@.take(at as int) + all.take(0) + old(buf)@.skip(at as int));
    }
    while i < width
        invariant
            i <= width,
            all.len() == width,
            at + width <= buf.len(),
            buf@.len() == old(buf)@.len(),
            all.skip(i as int) == le(rest as nat, (width - i) as nat),
            buf@ == old(buf)@.take(at as int) + all.take(i as int) + old(buf)@.skip(at + i),
        decreases width - i,
    {
        let byte: u8 = (rest % 256) as u8;
        buf[at + i] = byte;
        proof {
            let tail = all.skip(i as int);
            assert(tail[0] == byte);
            assert(tail.skip(1) =~= all.skip(i + 1));
            assert(le(rest as nat, (width - i) as nat).skip(1) =~= le(
                (rest / 256) as nat,
                (width - i - 1) as nat,
            ));
            assert(buf@ =~= old(buf)@.take(at as int) + all.take(i + 1) + old(buf)@.skip(
                at + i + 1,
            ));
        }
        rest = rest / 256;
        i = i + 1;
    }
    assert(all.take(i as int) =~= all);
}

/// Reads a `width`-byte integer from `buf` at `at`.
pub fn get_le(buf: &[u8], at: usize, width: usize) -> (r: u64)
    requires
        at + width <= buf@.len(),
        width <= 8,
    ensures
        r == from_le(buf@.subrange(at as int, at + width)),
{
    let mut value: u64 = 0;
    let mut i: usize = width;
    let ghost bytes = buf@.subrange(at as int, at + width);
    proof {
        assert(bytes.skip(width as int) =~= Seq::<u8>::empty());
    }
    while i > 0
        invariant
            i <= width <= 8,
            at + width <= buf.len(),
            bytes == buf@.subrange(at as int, at + width),
            value == from_le(bytes.skip(i as int)),
        decreases i,
    {
        let byte: u8 = buf[at + i - 1];
        proof {
            let tail = bytes.skip(i - 1);
            assert(tail[0] == byte);
            assert(tail.skip(1) =~= bytes.skip(i as int));
            lemma_from_le(tail);
            lemma_pow256_grows(tail.len(), 8);
            lemma_sizes();
        }
        value = value * 256 + byte as u64;
        i = i - 1;
    }
    assert(bytes.skip(0) =~= bytes);
    value
}

} // verus!
