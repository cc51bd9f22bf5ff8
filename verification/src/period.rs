//! The period of the PCG64 state sequence.
//!
//! The 128-bit LCG `s -> s * PCG_MULT + PCG_INC (mod 2^128)` has an odd increment and a multiplier
//! that is `1 (mod 4)`, so it has full period: from any state it reaches every state in fewer than
//! `2^128` steps. The proof lifts reachability modulo `2^k` to `2^(k+1)`, using that `2^k` steps of
//! the unreduced recurrence move any value by `2^k` modulo `2^(k+1)`.
use vstd::prelude::*;
use crate::prng::{pcg_advance, two128, PCG_INC, PCG_MULT};

verus! {

/// The state reached from `state` after `n` LCG steps.
pub open spec fn lcg_iterate(state: u128, n: nat) -> u128
    decreases n,
{
    if n == 0 {
        state
    } else {
        pcg_advance(lcg_iterate(state, (n - 1) as nat))
    }
}

/// `2^k`.
pub open spec fn two_to(k: nat) -> int
    decreases k,
{
    if k == 0 {
        1
    } else {
        2 * two_to((k - 1) as nat)
    }
}

/// The LCG recurrence over the integers, without reduction: `F(0) = u`, `F(n + 1) = a F(n) + c`.
pub open spec fn lcg_unreduced(u: int, n: nat) -> int
    decreases n,
{
    if n == 0 {
        u
    } else {
        PCG_MULT as int * lcg_unreduced(u, (n - 1) as nat) + PCG_INC as int
    }
}

/// `a^n` for the LCG multiplier `a`.
pub open spec fn mult_pow(n: nat) -> int
    decreases n,
{
    if n == 0 {
        1
    } else {
        PCG_MULT as int * mult_pow((n - 1) as nat)
    }
}

/// `1 + a + ... + a^(n - 1)` for the LCG multiplier `a`.
pub open spec fn geom(n: nat) -> int
    decreases n,
{
    if n == 0 {
        0
    } else {
        PCG_MULT as int * geom((n - 1) as nat) + 1
    }
}

proof fn lemma_two_to_pos(k: nat)
    ensures
        two_to(k) >= 1,
    decreases k,
{
    if k > 0 {
        lemma_two_to_pos((k - 1) as nat);
    }
}

/// `F(n) = a^n u + c (1 + a + ... + a^(n - 1))`.
proof fn lemma_closed_form(u: int, n: nat)
    ensures
        lcg_unreduced(u, n) == mult_pow(n) * u + PCG_INC as int * geom(n),
    decreases n,
{
    if n > 0 {
        let m = (n - 1) as nat;
        lemma_closed_form(u, m);
        let a = PCG_MULT as int;
        let c = PCG_INC as int;
        let f = lcg_unreduced(u, m);
        let p = mult_pow(m);
        let g = geom(m);
        assert(a * f + c == (a * p) * u + c * (a * g + 1)) by (nonlinear_arith)
            requires
                f == p * u + c * g,
        ;
    }
}

/// Running `n` steps and then `m` more is running `m + n` steps.
proof fn lemma_compose(u: int, m: nat, n: nat)
    ensures
        lcg_unreduced(u, m + n) == lcg_unreduced(lcg_unreduced(u, n), m),
    decreases m,
{
    if m > 0 {
        lemma_compose(u, (m - 1) as nat, n);
        assert((m + n - 1) as nat == ((m - 1) as nat + n) as nat);
    }
}

/// The reduced iteration is the unreduced recurrence modulo `2^128`.
proof fn lemma_iterate_reduces(u: u128, n: nat)
    ensures
        lcg_iterate(u, n) as int == lcg_unreduced(u as int, n) % (two128() as int),
    decreases n,
{
    let big_m = two128() as int;
    if n == 0 {
        vstd::arithmetic::div_mod::lemma_small_mod(u as nat, two128());
    } else {
        let m = (n - 1) as nat;
        lemma_iterate_reduces(u, m);
        let f = lcg_unreduced(u as int, m);
        let x = lcg_iterate(u, m) as int;
        let a = PCG_MULT as int;
        let c = PCG_INC as int;
        vstd::arithmetic::div_mod::lemma_fundamental_div_mod(f, big_m);
        let q = f / big_m;
        assert(a * f + c == big_m * (a * q) + (x * a + c)) by (nonlinear_arith)
            requires
                f == big_m * q + x,
        ;
        vstd::arithmetic::div_mod::lemma_mod_multiples_vanish(a * q, x * a + c, big_m);
    }
}

/// Taking one step first and then `n` steps is taking `n + 1` steps.
pub proof fn lemma_iterate_shift(u: u128, n: nat)
    ensures
        lcg_iterate(pcg_advance(u), n) == lcg_iterate(u, n + 1),
    decreases n,
{
    assert(lcg_iterate(u, n + 1) == pcg_advance(lcg_iterate(u, n)));
    if n > 0 {
        lemma_iterate_shift(u, (n - 1) as nat);
        assert(lcg_iterate(pcg_advance(u), n) == pcg_advance(
            lcg_iterate(pcg_advance(u), (n - 1) as nat),
        ));
    } else {
        assert(lcg_iterate(u, 0) == u);
    }
}

/// `a^n = 4 q + 1` for some `q`.
proof fn lemma_mult_pow_mod4(n: nat) -> (q: int)
    ensures
        mult_pow(n) == 4 * q + 1,
    decreases n,
{
    if n == 0 {
        0
    } else {
        let q0 = lemma_mult_pow_mod4((n - 1) as nat);
        let p = (PCG_MULT as int - 1) / 4;
        assert(PCG_MULT as int == 4 * p + 1);
        let x = mult_pow((n - 1) as nat);
        assert((4 * p + 1) * x == 4 * (4 * p * q0 + p + q0) + 1) by (nonlinear_arith)
            requires
                x == 4 * q0 + 1,
        ;
        4 * p * q0 + p + q0
    }
}

/// `a^n - 1 = (a - 1)(1 + a + ... + a^(n - 1))`.
proof fn lemma_mult_pow_minus_one(n: nat)
    ensures
        mult_pow(n) - 1 == (PCG_MULT as int - 1) * geom(n),
    decreases n,
{
    if n > 0 {
        let m = (n - 1) as nat;
        lemma_mult_pow_minus_one(m);
        let a = PCG_MULT as int;
        let p = mult_pow(m);
        let g = geom(m);
        assert(a * p - 1 == (a - 1) * (a * g + 1)) by (nonlinear_arith)
            requires
                p - 1 == (a - 1) * g,
        ;
    }
}

/// `geom(m + n) = geom(n) + a^n geom(m)`.
proof fn lemma_geom_add(m: nat, n: nat)
    ensures
        geom(m + n) == geom(n) + mult_pow(n) * geom(m),
    decreases n,
{
    if n > 0 {
        let k = (n - 1) as nat;
        lemma_geom_add(m, k);
        assert((m + n - 1) as nat == (m + k) as nat);
        let a = PCG_MULT as int;
        let gk = geom(k);
        let gm = geom(m);
        let pk = mult_pow(k);
        let gmk = geom((m + k) as nat);
        assert(a * gmk + 1 == (a * gk + 1) + (a * pk) * gm) by (nonlinear_arith)
            requires
                gmk == gk + pk * gm,
        ;
    }
}

/// `geom(2^k) = 2^k (2 h + 1)`: the geometric sum over `2^k` terms has exactly `k` factors of two.
proof fn lemma_geom_two_to(k: nat) -> (h: int)
    ensures
        geom(two_to(k) as nat) == two_to(k) * (2 * h + 1),
    decreases k,
{
    lemma_two_to_pos(k);
    if k == 0 {
        assert(geom(0) == 0);
        assert(geom(1) == PCG_MULT as int * geom(0) + 1);
        0
    } else {
        let j = (k - 1) as nat;
        lemma_two_to_pos(j);
        let n = two_to(j) as nat;
        let h0 = lemma_geom_two_to(j);
        lemma_geom_add(n, n);
        let r = lemma_mult_pow_mod4(n);
        assert((n + n) as nat == two_to(k) as nat);
        let g = geom(n);
        assert(g + (4 * r + 1) * g == (2 * n) * (2 * ((2 * r + 1) * h0 + r) + 1)) by (nonlinear_arith)
            requires
                g == n * (2 * h0 + 1),
        ;
        (2 * r + 1) * h0 + r
    }
}

/// The algebra behind [`lemma_two_to_steps`], over symbolic values.
proof fn lemma_shift_identity(a: int, c: int, p: int, e: int, an: int, s: int, nn: int, o: int, v: int) -> (h: int)
    requires
        an - 1 == (a - 1) * s,
        s == nn * (2 * o + 1),
        a - 1 == 4 * p,
        c == 2 * e + 1,
    ensures
        an * v + c * s == v + nn + 2 * nn * h,
{
    assert(an == 1 + 4 * p * s) by (nonlinear_arith)
        requires
            an - 1 == (a - 1) * s,
            a - 1 == 4 * p,
    ;
    assert(an * v == v + 4 * p * (s * v)) by (nonlinear_arith)
        requires
            an == 1 + 4 * p * s,
    ;
    assert(s * v == nn * ((2 * o + 1) * v)) by (nonlinear_arith)
        requires
            s == nn * (2 * o + 1),
    ;
    assert(c * s == nn + 2 * nn * (2 * e * o + e + o)) by (nonlinear_arith)
        requires
            c == 2 * e + 1,
            s == nn * (2 * o + 1),
    ;
    let x = (2 * o + 1) * v;
    let h = 2 * p * x + 2 * e * o + e + o;
    assert(4 * p * (nn * x) == 2 * nn * (2 * p * x)) by (nonlinear_arith);
    assert(2 * nn * (2 * p * x) + 2 * nn * (2 * e * o + e + o) == 2 * nn * h) by (nonlinear_arith)
        requires
            h == 2 * p * x + 2 * e * o + e + o,
    ;
    h
}

/// `2^k` steps of the unreduced recurrence move any value by `2^k` modulo `2^(k+1)`.
proof fn lemma_two_to_steps(k: nat, v: int) -> (h: int)
    ensures
        lcg_unreduced(v, two_to(k) as nat) == v + two_to(k) + 2 * two_to(k) * h,
{
    lemma_two_to_pos(k);
    let n = two_to(k) as nat;
    let nn = two_to(k);
    lemma_closed_form(v, n);
    lemma_mult_pow_minus_one(n);
    let o = lemma_geom_two_to(k);
    let a = PCG_MULT as int;
    let c = PCG_INC as int;
    let p = (a - 1) / 4;
    assert(a - 1 == 4 * p);
    let e = (c - 1) / 2;
    assert(c == 2 * e + 1);
    let an = mult_pow(n);
    let s = geom(n);
    lemma_shift_identity(a, c, p, e, an, s, nn, o, v)
}

/// A number of steps, below `2^k`, after which the unreduced recurrence from `u` agrees with `t`
/// modulo `2^k`.
pub open spec fn reach_steps(k: nat, u: int, t: int) -> nat
    decreases k,
{
    if k == 0 {
        0
    } else {
        let d = reach_steps((k - 1) as nat, u, t);
        if (lcg_unreduced(u, d) - t) % two_to(k) == 0 {
            d
        } else {
            (d + two_to((k - 1) as nat)) as nat
        }
    }
}

proof fn lemma_reach_steps(k: nat, u: int, t: int)
    ensures
        reach_steps(k, u, t) < two_to(k),
        (lcg_unreduced(u, reach_steps(k, u, t)) - t) % two_to(k) == 0,
    decreases k,
{
    lemma_two_to_pos(k);
    if k == 0 {
    } else {
        let j = (k - 1) as nat;
        lemma_reach_steps(j, u, t);
        lemma_two_to_pos(j);
        let d = reach_steps(j, u, t);
        let half = two_to(j);
        let full = two_to(k);
        let diff = lcg_unreduced(u, d) - t;
        if diff % full != 0 {
            vstd::arithmetic::div_mod::lemma_fundamental_div_mod(diff, half);
            let q = diff / half;
            let q2 = q / 2;
            vstd::arithmetic::div_mod::lemma_fundamental_div_mod(q, 2);
            if q % 2 == 0 {
                assert(diff == full * q2) by (nonlinear_arith)
                    requires
                        diff == half * q,
                        q == 2 * q2,
                        full == 2 * half,
                ;
                vstd::arithmetic::div_mod::lemma_mod_multiples_vanish(q2, 0, full);
                assert(false);
            }
            let v = lcg_unreduced(u, d);
            let h = lemma_two_to_steps(j, v);
            lemma_compose(u, half as nat, d);
            assert((d + half) as nat == (half as nat + d) as nat);
            let w = q2 + 1 + h;
            assert(v + half + 2 * half * h - t == full * w) by (nonlinear_arith)
                requires
                    v - t == half * q,
                    q == 2 * q2 + 1,
                    full == 2 * half,
                    w == q2 + 1 + h,
            ;
            vstd::arithmetic::div_mod::lemma_mod_multiples_vanish(w, 0, full);
        }
    }
}

/// `2^128` as a power of two.
proof fn lemma_two_to_128()
    ensures
        two_to(128) == two128() as int,
{
    lemma_two_to_double(0);
    assert(two_to(1) == 2);
    lemma_two_to_double(1);
    assert(two_to(2) == 4);
    lemma_two_to_double(2);
    assert(two_to(4) == 16);
    lemma_two_to_double(4);
    assert(two_to(8) == 0x100);
    lemma_two_to_double(8);
    assert(two_to(16) == 0x1_0000);
    lemma_two_to_double(16);
    assert(two_to(32) == 0x1_0000_0000);
    lemma_two_to_double(32);
    assert(two_to(64) == 0x1_0000_0000_0000_0000);
    lemma_two_to_double(64);
}

/// `2^(2k) = (2^k)^2`.
proof fn lemma_two_to_double(k: nat)
    ensures
        two_to(k + k) == two_to(k) * two_to(k),
{
    lemma_two_to_add(k, k);
}

/// `2^(j + k) = 2^j 2^k`.
proof fn lemma_two_to_add(j: nat, k: nat)
    ensures
        two_to(j + k) == two_to(j) * two_to(k),
    decreases k,
{
    if k > 0 {
        lemma_two_to_add(j, (k - 1) as nat);
        assert((j + k - 1) as nat == (j + (k - 1) as nat) as nat);
        let x = two_to(j);
        let y = two_to((k - 1) as nat);
        assert(2 * (x * y) == x * (2 * y)) by (nonlinear_arith);
    }
}

/// From `u`, the state `t` is reached in fewer than `2^128` steps; the number of steps returned.
pub proof fn lemma_reach(u: u128, t: u128) -> (d: nat)
    ensures
        d < two128(),
        lcg_iterate(u, d) == t,
{
    let d = reach_steps(128, u as int, t as int);
    lemma_reach_steps(128, u as int, t as int);
    lemma_two_to_128();
    lemma_iterate_reduces(u, d);
    let big_m = two128() as int;
    let f = lcg_unreduced(u as int, d);
    vstd::arithmetic::div_mod::lemma_fundamental_div_mod(f - t, big_m);
    let j = (f - t) / big_m;
    assert(f == big_m * j + t);
    vstd::arithmetic::div_mod::lemma_mod_multiples_vanish(j, t as int, big_m);
    vstd::arithmetic::div_mod::lemma_small_mod(t as nat, two128());
    d
}

/// Full period: from any 128-bit state the generator reaches every 128-bit state, in fewer than
/// `2^128` steps.
pub proof fn lemma_full_period(u: u128, t: u128)
    ensures
        exists|d: nat| d < two128() && #[trigger] lcg_iterate(u, d) == t,
{
    let d = lemma_reach(u, t);
    assert(lcg_iterate(u, d) == t);
}

} // verus!
