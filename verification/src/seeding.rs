//! Distinct seeds start distinct generators.
//!
//! Every stage of seeding is a bijection: the SplitMix64 increment, its finaliser (xor-shifts and
//! multiplications by odd constants modulo `2^64`), and the LCG step (a multiplication by an odd
//! constant and an addition modulo `2^128`). So two different `u64` seeds never yield the same
//! 128-bit state, and — the LCG step being a bijection — the two generators' states differ after
//! any equal number of steps.
use vstd::prelude::*;
use crate::period::lcg_iterate;
use crate::prng::{
    expanded_state, pcg_advance, seeded_state, splitmix_mix, splitmix_state, two128, two64,
    PCG_INC, PCG_MULT, SPLITMIX_GAMMA, SPLITMIX_MUL1, SPLITMIX_MUL2,
};

verus! {

/// Multiplying by `mult` and then by its inverse `inv` modulo `m` gives back `z`.
proof fn lemma_mul_mod_undo(z: int, mult: int, inv: int, m: int)
    requires
        0 < m,
        0 <= z < m,
        (mult * inv) % m == 1,
    ensures
        ((z * mult) % m * inv) % m == z,
{
    vstd::arithmetic::div_mod::lemma_mul_mod_noop_left(z * mult, inv, m);
    vstd::arithmetic::mul::lemma_mul_is_associative(z, mult, inv);
    vstd::arithmetic::div_mod::lemma_mul_mod_noop_right(z, mult * inv, m);
    vstd::arithmetic::div_mod::lemma_small_mod(z as nat, m as nat);
}

/// Multiplication by a unit modulo `m` is injective on `[0, m)`.
proof fn lemma_mul_mod_injective(x: int, y: int, mult: int, inv: int, m: int)
    requires
        0 < m,
        0 <= x < m,
        0 <= y < m,
        (mult * inv) % m == 1,
        (x * mult) % m == (y * mult) % m,
    ensures
        x == y,
{
    lemma_mul_mod_undo(x, mult, inv, m);
    lemma_mul_mod_undo(y, mult, inv, m);
}

proof fn lemma_xorshift_injective(x: u64, y: u64)
    ensures
        (x ^ (x >> 30u64)) == (y ^ (y >> 30u64)) ==> x == y,
        (x ^ (x >> 27u64)) == (y ^ (y >> 27u64)) ==> x == y,
        (x ^ (x >> 31u64)) == (y ^ (y >> 31u64)) ==> x == y,
{
    assert((x ^ (x >> 30u64)) == (y ^ (y >> 30u64)) ==> x == y) by (bit_vector);
    assert((x ^ (x >> 27u64)) == (y ^ (y >> 27u64)) ==> x == y) by (bit_vector);
    assert((x ^ (x >> 31u64)) == (y ^ (y >> 31u64)) ==> x == y) by (bit_vector);
}

/// The SplitMix64 finaliser is injective.
proof fn lemma_splitmix_mix_injective(z1: u64, z2: u64)
    requires
        splitmix_mix(z1) == splitmix_mix(z2),
    ensures
        z1 == z2,
{
    let t = two64() as int;
    let u1 = z1 ^ (z1 >> 30u64);
    let u2 = z2 ^ (z2 >> 30u64);
    let a1 = ((u1 as nat * SPLITMIX_MUL1 as nat) % two64()) as u64;
    let a2 = ((u2 as nat * SPLITMIX_MUL1 as nat) % two64()) as u64;
    let v1 = a1 ^ (a1 >> 27u64);
    let v2 = a2 ^ (a2 >> 27u64);
    let b1 = ((v1 as nat * SPLITMIX_MUL2 as nat) % two64()) as u64;
    let b2 = ((v2 as nat * SPLITMIX_MUL2 as nat) % two64()) as u64;
    vstd::arithmetic::div_mod::lemma_mod_pos_bound((u1 as nat * SPLITMIX_MUL1 as nat) as int, t);
    vstd::arithmetic::div_mod::lemma_mod_pos_bound((u2 as nat * SPLITMIX_MUL1 as nat) as int, t);
    vstd::arithmetic::div_mod::lemma_mod_pos_bound((v1 as nat * SPLITMIX_MUL2 as nat) as int, t);
    vstd::arithmetic::div_mod::lemma_mod_pos_bound((v2 as nat * SPLITMIX_MUL2 as nat) as int, t);
    lemma_xorshift_injective(b1, b2);
    assert(b1 == b2);
    assert((SPLITMIX_MUL2 as int * 0x3196_42b2_d24d_8ec3int) % t == 1);
    lemma_mul_mod_injective(v1 as int, v2 as int, SPLITMIX_MUL2 as int, 0x3196_42b2_d24d_8ec3int, t);
    lemma_xorshift_injective(a1, a2);
    assert((SPLITMIX_MUL1 as int * 0x96de_1b17_3f11_9089int) % t == 1);
    lemma_mul_mod_injective(u1 as int, u2 as int, SPLITMIX_MUL1 as int, 0x96de_1b17_3f11_9089int, t);
    lemma_xorshift_injective(z1, z2);
}

/// The LCG step is injective.
pub proof fn lemma_advance_injective(s1: u128, s2: u128)
    requires
        pcg_advance(s1) == pcg_advance(s2),
    ensures
        s1 == s2,
{
    let m = two128() as int;
    let a = PCG_MULT as int;
    let c = PCG_INC as int;
    vstd::arithmetic::div_mod::lemma_mod_pos_bound(s1 as int * a + c, m);
    vstd::arithmetic::div_mod::lemma_mod_pos_bound(s2 as int * a + c, m);
    assert((s1 as int * a + c) % m == (s2 as int * a + c) % m);
    vstd::arithmetic::div_mod::lemma_add_mod_noop(s1 as int * a, c, m);
    vstd::arithmetic::div_mod::lemma_add_mod_noop(s2 as int * a, c, m);
    vstd::arithmetic::div_mod::lemma_mod_pos_bound(s1 as int * a, m);
    vstd::arithmetic::div_mod::lemma_mod_pos_bound(s2 as int * a, m);
    vstd::arithmetic::div_mod::lemma_small_mod(c as nat, m as nat);
    let p1 = (s1 as int * a) % m;
    let p2 = (s2 as int * a) % m;
    // p1 + c and p2 + c agree modulo m and both lie in [0, 2m), so p1 == p2.
    if p1 != p2 {
        if p1 + c < m && p2 + c < m {
            vstd::arithmetic::div_mod::lemma_small_mod((p1 + c) as nat, m as nat);
            vstd::arithmetic::div_mod::lemma_small_mod((p2 + c) as nat, m as nat);
        } else if p1 + c >= m && p2 + c >= m {
            vstd::arithmetic::div_mod::lemma_mod_multiples_vanish(1, p1 + c - m, m);
            vstd::arithmetic::div_mod::lemma_mod_multiples_vanish(1, p2 + c - m, m);
            vstd::arithmetic::div_mod::lemma_small_mod((p1 + c - m) as nat, m as nat);
            vstd::arithmetic::div_mod::lemma_small_mod((p2 + c - m) as nat, m as nat);
        } else if p1 + c < m {
            vstd::arithmetic::div_mod::lemma_small_mod((p1 + c) as nat, m as nat);
            vstd::arithmetic::div_mod::lemma_mod_multiples_vanish(1, p2 + c - m, m);
            vstd::arithmetic::div_mod::lemma_small_mod((p2 + c - m) as nat, m as nat);
        } else {
            vstd::arithmetic::div_mod::lemma_small_mod((p2 + c) as nat, m as nat);
            vstd::arithmetic::div_mod::lemma_mod_multiples_vanish(1, p1 + c - m, m);
            vstd::arithmetic::div_mod::lemma_small_mod((p1 + c - m) as nat, m as nat);
        }
    }
    assert((a * 0x07dd_a22b_9397_9860_98ab_c8b0_716e_ac8dint) % m == 1);
    lemma_mul_mod_injective(s1 as int, s2 as int, a, 0x07dd_a22b_9397_9860_98ab_c8b0_716e_ac8dint, m);
}

/// Distinct seeds give distinct generator states: seeding is injective.
pub proof fn lemma_distinct_seeds_distinct_states(seed_a: u64, seed_b: u64)
    requires
        seed_a != seed_b,
    ensures
        seeded_state(seed_a) != seeded_state(seed_b),
{
    if seeded_state(seed_a) == seeded_state(seed_b) {
        lemma_advance_injective(expanded_state(seed_a), expanded_state(seed_b));
        let t = two64();
        let lo_a = splitmix_mix(splitmix_state(seed_a, 1));
        let lo_b = splitmix_mix(splitmix_state(seed_b, 1));
        let hi_a = splitmix_mix(splitmix_state(seed_a, 2));
        let hi_b = splitmix_mix(splitmix_state(seed_b, 2));
        assert(hi_a as nat * t + lo_a as nat == hi_b as nat * t + lo_b as nat) by {
            assert(hi_a as nat * t + lo_a as nat <= u128::MAX) by (nonlinear_arith)
                requires
                    hi_a < t,
                    lo_a < t,
                    t == 0x1_0000_0000_0000_0000nat,
            ;
            assert(hi_b as nat * t + lo_b as nat <= u128::MAX) by (nonlinear_arith)
                requires
                    hi_b < t,
                    lo_b < t,
                    t == 0x1_0000_0000_0000_0000nat,
            ;
        }
        vstd::arithmetic::div_mod::lemma_mod_multiples_vanish(hi_a as int, lo_a as int, t as int);
        vstd::arithmetic::div_mod::lemma_mod_multiples_vanish(hi_b as int, lo_b as int, t as int);
        vstd::arithmetic::div_mod::lemma_small_mod(lo_a as nat, t);
        vstd::arithmetic::div_mod::lemma_small_mod(lo_b as nat, t);
        assert(lo_a == lo_b);
        lemma_splitmix_mix_injective(splitmix_state(seed_a, 1), splitmix_state(seed_b, 1));
        let g = SPLITMIX_GAMMA as int;
        vstd::arithmetic::div_mod::lemma_mod_pos_bound(seed_a as int + g, t as int);
        vstd::arithmetic::div_mod::lemma_mod_pos_bound(seed_b as int + g, t as int);
        if seed_a as int + g < t && seed_b as int + g < t {
            vstd::arithmetic::div_mod::lemma_small_mod((seed_a as int + g) as nat, t);
            vstd::arithmetic::div_mod::lemma_small_mod((seed_b as int + g) as nat, t);
        } else if seed_a as int + g >= t && seed_b as int + g >= t {
            vstd::arithmetic::div_mod::lemma_mod_multiples_vanish(1, seed_a as int + g - t, t as int);
            vstd::arithmetic::div_mod::lemma_mod_multiples_vanish(1, seed_b as int + g - t, t as int);
            vstd::arithmetic::div_mod::lemma_small_mod((seed_a as int + g - t) as nat, t);
            vstd::arithmetic::div_mod::lemma_small_mod((seed_b as int + g - t) as nat, t);
        } else if seed_a as int + g < t {
            vstd::arithmetic::div_mod::lemma_small_mod((seed_a as int + g) as nat, t);
            vstd::arithmetic::div_mod::lemma_mod_multiples_vanish(1, seed_b as int + g - t, t as int);
            vstd::arithmetic::div_mod::lemma_small_mod((seed_b as int + g - t) as nat, t);
        } else {
            vstd::arithmetic::div_mod::lemma_small_mod((seed_b as int + g) as nat, t);
            vstd::arithmetic::div_mod::lemma_mod_multiples_vanish(1, seed_a as int + g - t, t as int);
            vstd::arithmetic::div_mod::lemma_small_mod((seed_a as int + g - t) as nat, t);
        }
    }
}

/// Generators started from distinct seeds stay apart: after the same number of steps, their states
/// still differ.
pub proof fn lemma_distinct_seeds_never_meet(seed_a: u64, seed_b: u64, k: nat)
    requires
        seed_a != seed_b,
    ensures
        lcg_iterate(seeded_state(seed_a), k) != lcg_iterate(seeded_state(seed_b), k),
    decreases k,
{
    lemma_distinct_seeds_distinct_states(seed_a, seed_b);
    if k > 0 {
        lemma_distinct_seeds_never_meet(seed_a, seed_b, (k - 1) as nat);
        if lcg_iterate(seeded_state(seed_a), k) == lcg_iterate(seeded_state(seed_b), k) {
            lemma_advance_injective(
                lcg_iterate(seeded_state(seed_a), (k - 1) as nat),
                lcg_iterate(seeded_state(seed_b), (k - 1) as nat),
            );
        }
    }
}

} // verus!
