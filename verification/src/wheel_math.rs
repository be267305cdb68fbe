use vstd::prelude::*;
use vstd::arithmetic::div_mod::*;
use vstd::arithmetic::mul::*;
use vstd::arithmetic::power2::*;

verus! {

/// `n` is a power of two: 1, 2, 4, 8, ...
pub open spec fn is_power_of_two(n: int) -> bool
    decreases n,
{
    if n <= 0 {
        false
    } else if n == 1 {
        true
    } else {
        n % 2 == 0 && is_power_of_two(n / 2)
    }
}

/// `r` is the smallest power of two that is at least `t` (and at least 1).
pub open spec fn is_wheel_size_for(r: int, t: int) -> bool {
    &&& is_power_of_two(r)
    &&& r >= t
    &&& (r == 1 || r / 2 < t)
}

/// The tick at which a timeout sitting in slot `slot` of a wheel of `len` slots, with
/// `rounds` full turns still to wait, comes due when the wheel is at tick `tick`:
/// the next visit of that slot, plus one turn per remaining round.
pub open spec fn due_tick(tick: int, slot: int, rounds: int, len: int) -> int {
    tick + (slot - tick) % len + rounds * len
}

proof fn lemma_and_low_bit(x: u128, m: u128)
    by (bit_vector)
    ensures
        x & m == ((x / 2) & (m / 2)) * 2 + ((x % 2) & (m % 2)),
{
}

/// Masking with `p - 1`, for a power of two `p`, keeps the remainder modulo `p`.
pub proof fn lemma_mask_is_mod(x: u128, p: u128)
    requires
        is_power_of_two(p as int),
    ensures
        x & ((p - 1) as u128) == x % p,
        x % p < p,
    decreases p,
{
    if p == 1 {
        assert(x & 0 == 0) by (bit_vector);
    } else {
        let p1 = (p / 2) as u128;
        lemma_mask_is_mod(x / 2, p1);
        let m = (p - 1) as u128;
        assert(m / 2 == p1 - 1);
        assert(m % 2 == 1);
        lemma_and_low_bit(x, m);
        assert((x % 2) & 1 == x % 2) by (bit_vector);
        lemma_mod_breakdown(x as int, 2, p1 as int);
        assert(x & m == 2 * ((x / 2) % p1) + x % 2);
    }
}

/// 2^k is a power of two.
pub proof fn lemma_pow2_is_power_of_two(k: nat)
    ensures
        is_power_of_two(pow2(k) as int),
    decreases k,
{
    lemma_pow2_pos(k);
    if k == 0 {
        lemma2_to64();
    } else {
        lemma_pow2_is_power_of_two((k - 1) as nat);
        lemma_pow2_unfold(k);
        lemma_double_power_of_two(pow2((k - 1) as nat) as int);
    }
}

/// The largest power of two of `u128` is a power of two.
pub proof fn lemma_top_u128_power_of_two()
    ensures
        is_power_of_two(0x8000_0000_0000_0000_0000_0000_0000_0000int),
{
    lemma2_to64();
    lemma2_to64_rest();
    lemma_pow2_adds(64, 63);
    lemma_pow2_is_power_of_two(127);
}

/// Doubling a power of two gives a power of two.
pub proof fn lemma_double_power_of_two(n: int)
    requires
        is_power_of_two(n),
    ensures
        is_power_of_two(2 * n),
{
    assert((2 * n) / 2 == n);
}

/// A power of two that fits in `usize` is at most half of `usize::MAX` plus one.
pub proof fn lemma_power_of_two_bound(n: int, b: int)
    requires
        is_power_of_two(n),
        is_power_of_two(b),
        n < 2 * b,
    ensures
        n <= b,
    decreases n,
{
    if n > 1 && b > 1 {
        lemma_power_of_two_bound(n / 2, b / 2);
    }
}

/// The wheel for 512 ticks has exactly 512 slots.
pub proof fn lemma_wheel_size_512(len: int)
    requires
        is_wheel_size_for(len, 512),
    ensures
        len == 512,
{
    reveal_with_fuel(is_power_of_two, 11);
    assert(is_power_of_two(512));
    assert(len % 2 == 0);
    lemma_power_of_two_bound(len, 512);
}

/// Placing a timeout whose due tick is `c` (not before `tick`) in slot `c % len`
/// with `(c - tick) / len` rounds makes it come due exactly at `c`.
pub proof fn lemma_placement_due(c: int, tick: int, len: int)
    requires
        len > 0,
        c >= tick,
    ensures
        0 <= c % len < len,
        (c - tick) / len >= 0,
        due_tick(tick, c % len, (c - tick) / len, len) == c,
{
    lemma_mod_bound(c, len);
    lemma_div_pos_is_pos(c - tick, len);
    lemma_sub_mod_noop(c, tick, len);
    lemma_mod_bound(tick, len);
    lemma_mod_twice(tick, len);
    assert((c % len - tick) % len == (c % len - tick % len) % len) by {
        lemma_sub_mod_noop_right(c % len, tick, len);
    }
    assert((c % len - tick % len) % len == (c - tick) % len) by {
        lemma_sub_mod_noop(c, tick, len);
    }
    lemma_fundamental_div_mod(c - tick, len);
    lemma_mul_is_commutative(len, (c - tick) / len);
}

/// Advancing the wheel by one tick keeps the due tick of every timeout, given that
/// the slot being processed has had its rounds counted down.
pub proof fn lemma_advance_due(tick: int, slot: int, rounds: int, len: int)
    requires
        len > 0,
        0 <= slot < len,
    ensures
        slot == tick % len ==> (slot - tick) % len == 0,
        slot == tick % len ==> due_tick(tick + 1, slot, rounds - 1, len) == due_tick(tick, slot, rounds, len),
        slot != tick % len ==> (slot - tick) % len != 0,
        slot != tick % len ==> due_tick(tick + 1, slot, rounds, len) == due_tick(tick, slot, rounds, len),
{
    let d = (slot - tick) % len;
    lemma_mod_bound(slot - tick, len);
    lemma_mod_bound(tick, len);
    lemma_fundamental_div_mod(slot - tick, len);
    lemma_fundamental_div_mod(tick, len);
    let q = (slot - tick) / len;
    // slot - tick == q * len + d
    if slot == tick % len {
        // slot - tick == -(tick / len) * len
        assert(slot - tick == -(tick / len) * len + 0) by {
            lemma_mul_unary_negation(tick / len, len);
            lemma_mul_is_commutative(len, tick / len);
        }
        lemma_fundamental_div_mod_converse(slot - tick, len, -(tick / len), 0);
        // slot - tick - 1 == (-(tick / len) - 1) * len + (len - 1)
        assert((-(tick / len) - 1) * len + (len - 1) == -(tick / len) * len - 1) by {
            lemma_mul_is_distributive_sub_other_way(len, -(tick / len), 1);
        }
        lemma_fundamental_div_mod_converse(slot - tick - 1, len, -(tick / len) - 1, len - 1);
        assert((rounds - 1) * len == rounds * len - len) by {
            lemma_mul_is_distributive_sub_other_way(len, rounds, 1);
        }
    } else {
        lemma_mul_is_commutative(len, q);
        if d == 0 {
            // then slot == tick % len
            assert(tick == -q * len + slot) by {
                lemma_mul_unary_negation(q, len);
            }
            lemma_fundamental_div_mod_converse(tick, len, -q, slot);
            assert(false);
        }
        lemma_fundamental_div_mod_converse(slot - tick - 1, len, q, d - 1);
    }
}

} // verus!
