//! Positions in a ring: counters that only grow, kept in a machine word that wraps.

use vstd::arithmetic::power2;
use vstd::prelude::*;

verus! {

/// How many values a machine word has.
pub open spec fn modulus() -> nat {
    (usize::MAX + 1) as nat
}

/// The machine word for a position.
pub open spec fn wrapped(position: nat) -> usize {
    (position % modulus()) as usize
}

/// Whether `n` is a power of two.
pub open spec fn is_power(n: int) -> bool {
    exists|k: nat| n == #[trigger] power2::pow2(k)
}

/// Moving a position forward moves its machine word forward.
pub proof fn lemma_wrapping_add(position: nat, n: usize)
    ensures
        wrapped(position).wrapping_add(n) == wrapped(position + n as nat),
{
    let m = modulus() as int;
    vstd::arithmetic::div_mod::lemma_fundamental_div_mod(position as int, m);
    let q = position as int / m;
    let r = position as int % m;
    if r + n < m {
        vstd::arithmetic::div_mod::lemma_fundamental_div_mod_converse(
            position + n,
            m,
            q,
            r + n,
        );
    } else {
        assert(position + n == (q + 1) * m + (r + n - m)) by (nonlinear_arith)
            requires
                position == m * q + r,
        ;
        vstd::arithmetic::div_mod::lemma_fundamental_div_mod_converse(
            position + n,
            m,
            q + 1,
            r + n - m,
        );
    }
}

/// The distance between two positions can be read off their machine words.
pub proof fn lemma_wrapping_sub(to: nat, from: nat)
    requires
        from <= to,
        to - from <= usize::MAX,
    ensures
        wrapped(to).wrapping_sub(wrapped(from)) == to - from,
{
    let n = (to - from) as usize;
    lemma_wrapping_add(from, n);
    assert(from + n as nat == to);
}

/// Positions less than a word apart have different machine words.
pub proof fn lemma_distinct(to: nat, from: nat)
    requires
        from < to,
        to - from <= usize::MAX,
    ensures
        wrapped(to) != wrapped(from),
{
    lemma_wrapping_sub(to, from);
}

/// Masking a position's machine word gives its place in a buffer of a power of two.
pub proof fn lemma_mask(position: nat, capacity: usize)
    requires
        is_power(capacity as int),
    ensures
        capacity > 0,
        wrapped(position) & ((capacity - 1) as usize) == position % (capacity as nat),
        position % (capacity as nat) < capacity,
{
    let k = choose|k: nat| capacity == #[trigger] power2::pow2(k);
    let bits = usize::BITS as nat;
    vstd::layout::unsigned_int_max_values();
    power2::lemma_pow2_pos(k);
    if k >= bits {
        if k > bits {
            power2::lemma_pow2_strictly_increases(bits, k);
        }
        assert(false);
    }
    vstd::bits::lemma_usize_low_bits_mask_is_mod(wrapped(position), k);
    let rest = (bits - k) as nat;
    power2::lemma_pow2_adds(k, rest);
    power2::lemma_pow2_pos(rest);
    vstd::arithmetic::div_mod::lemma_mod_mod(
        position as int,
        power2::pow2(k) as int,
        power2::pow2(rest) as int,
    );
    reveal(vstd::bits::low_bits_mask);
}

/// Whether `n` is a power of two.
pub fn is_power_of_two(n: usize) -> (r: bool)
    ensures
        r == is_power(n as int),
{
    if n == 0 {
        proof {
            assert forall|k: nat| 0 != #[trigger] power2::pow2(k) by {
                power2::lemma_pow2_pos(k);
            }
        }
        return false;
    }
    let mut rest: usize = n;
    let ghost mut k: nat = 0;
    proof {
        power2::lemma2_to64();
    }
    while rest % 2 == 0
        invariant
            rest > 0,
            n == rest * power2::pow2(k),
        decreases rest,
    {
        proof {
            power2::lemma_pow2_unfold(k + 1);
            assert(rest * power2::pow2(k) == (rest as int / 2) * (2 * power2::pow2(k))) by (nonlinear_arith)
                requires
                    rest % 2 == 0,
            ;
            k = k + 1;
        }
        rest = rest / 2;
    }
    proof {
        power2::lemma_pow2_pos(k);
        if rest == 1 {
            assert(n == power2::pow2(k)) by (nonlinear_arith)
                requires
                    n == rest * power2::pow2(k),
                    rest == 1,
            ;
        } else {
            assert forall|j: nat| n != #[trigger] power2::pow2(j) by {
                if n == power2::pow2(j) {
                    if j <= k {
                        if j < k {
                            power2::lemma_pow2_strictly_increases(j, k);
                        }
                        assert(rest * power2::pow2(k) > power2::pow2(k)) by (nonlinear_arith)
                            requires
                                rest > 1,
                                power2::pow2(k) > 0,
                        ;
                    } else {
                        power2::lemma_pow2_adds(k, (j - k) as nat);
                        power2::lemma_pow2_unfold((j - k) as nat);
                        let half = power2::pow2((j - k - 1) as nat);
                        assert(rest == 2 * half) by (nonlinear_arith)
                            requires
                                rest * power2::pow2(k) == power2::pow2(k) * (2 * half),
                                power2::pow2(k) > 0,
                        ;
                    }
                }
            }
        }
    }
    rest == 1
}

} // verus!
