//! A small, self-contained, portable PRNG for the placement search.
//!
//! The whole engine's randomness comes from here: a fully specified PCG64 (XSL-RR 128/64) whose
//! `u64` stream for a given seed is the same on every platform. It is seeded explicitly through
//! SplitMix64 (no entropy source), and all arithmetic is wrapping integer arithmetic.
use vstd::prelude::*;
use crate::period::{lcg_iterate, lemma_iterate_shift, lemma_reach};

verus! {

/// 2^64, the modulus of `u64` wrapping arithmetic.
pub open spec fn two64() -> nat {
    0x1_0000_0000_0000_0000nat
}

/// 2^128, the modulus of `u128` wrapping arithmetic.
pub open spec fn two128() -> nat {
    0x1_0000_0000_0000_0000_0000_0000_0000_0000nat
}

/// PCG64 LCG multiplier (O'Neill's canonical constant).
pub const PCG_MULT: u128 = 0x2360_ed05_1fc6_5da4_4385_df64_9fcc_f645;

/// The fixed odd increment (the "stream") of the LCG.
pub const PCG_INC: u128 = 0x5851_f42d_4c95_7f2d_1405_7b7e_f767_814f;

/// SplitMix64 state increment (the 64-bit golden ratio).
pub const SPLITMIX_GAMMA: u64 = 0x9E37_79B9_7F4A_7C15;

/// First SplitMix64 finaliser multiplier.
pub const SPLITMIX_MUL1: u64 = 0xBF58_476D_1CE4_E5B9;

/// Second SplitMix64 finaliser multiplier.
pub const SPLITMIX_MUL2: u64 = 0x94D0_49BB_1331_11EB;

/// One step of the 128-bit LCG: `state * PCG_MULT + PCG_INC (mod 2^128)`.
pub open spec fn pcg_advance(state: u128) -> u128 {
    ((state as nat * PCG_MULT as nat + PCG_INC as nat) % two128()) as u128
}

/// Rotation of `x` to the right by `r` bits (`r < 64`).
pub open spec fn rotr64(x: u64, r: u32) -> u64 {
    if r == 0 {
        x
    } else {
        (x >> r) | (x << ((64 - r) as u32))
    }
}

/// The XSL-RR output of a state: xor of its two 64-bit halves, rotated right by its top 6 bits.
pub open spec fn pcg_output(state: u128) -> u64 {
    rotr64(((state >> 64u128) ^ state) as u64, (state >> 122u128) as u32)
}

/// The first `k` outputs produced from `state` by repeated [`Prng::next_u64`] calls.
pub open spec fn stream(state: u128, k: nat) -> Seq<u64>
    decreases k,
{
    if k == 0 {
        Seq::empty()
    } else {
        let s = pcg_advance(state);
        seq![pcg_output(s)] + stream(s, (k - 1) as nat)
    }
}

/// Determinism: the whole output stream is a function of the seed alone, so two generators seeded
/// with the same seed produce the same outputs, draw for draw.
pub proof fn lemma_same_seed_same_stream(seed_a: u64, seed_b: u64, k: nat)
    requires
        seed_a == seed_b,
    ensures
        stream(seeded_state(seed_a), k) == stream(seeded_state(seed_b), k),
{
}

/// The SplitMix64 finaliser applied to an (already incremented) SplitMix64 state.
pub open spec fn splitmix_mix(z: u64) -> u64 {
    let a = (((z ^ (z >> 30u64)) as nat * SPLITMIX_MUL1 as nat) % two64()) as u64;
    let b = (((a ^ (a >> 27u64)) as nat * SPLITMIX_MUL2 as nat) % two64()) as u64;
    b ^ (b >> 31u64)
}

/// The `k`-th SplitMix64 state reached from `seed` (`seed + k * gamma mod 2^64`).
pub open spec fn splitmix_state(seed: u64, k: nat) -> u64 {
    ((seed as nat + k * SPLITMIX_GAMMA as nat) % two64()) as u64
}

/// The 128-bit state expanded from `seed`: the first SplitMix64 output is the low half, the second
/// the high half.
pub open spec fn expanded_state(seed: u64) -> u128 {
    let lo = splitmix_mix(splitmix_state(seed, 1));
    let hi = splitmix_mix(splitmix_state(seed, 2));
    (hi as nat * two64() + lo as nat) as u128
}

/// The state of a freshly seeded generator: the expanded state advanced once.
pub open spec fn seeded_state(seed: u64) -> u128 {
    pcg_advance(expanded_state(seed))
}

/// Lemire's rejection threshold `(2^64 - n) mod n`.
pub open spec fn lemire_threshold(n: u64) -> u64 {
    ((two64() - n as int) % (n as int)) as u64
}

/// Whether Lemire's method accepts the draw `x` for the bound `n`: the low 64 bits of the
/// 128-bit product `x * n` lie outside the biased zone `[0, (2^64 - n) mod n)`.
pub open spec fn lemire_accepts(x: u64, n: u64) -> bool {
    (x as nat * n as nat) % two64() >= lemire_threshold(n) as nat
}

/// The index Lemire's method derives from the draw `x`: the high 64 bits of `x * n`.
pub open spec fn lemire_value(x: u64, n: u64) -> nat {
    (x as nat * n as nat) / two64()
}

/// Redraws while the current draw `x` is rejected, at most `fuel` times. Returns the final state
/// and the accepted (or last) draw. With `2^128` as the fuel the draw returned is always accepted
/// ([`lemma_below_accepts`]), so the bound never cuts the search short.
pub open spec fn lemire_accept(state: u128, x: u64, n: u64, fuel: nat) -> (u128, u64)
    decreases fuel,
{
    if fuel == 0 || lemire_accepts(x, n) {
        (state, x)
    } else {
        let s2 = pcg_advance(state);
        lemire_accept(s2, pcg_output(s2), n, (fuel - 1) as nat)
    }
}

/// The state after, and the result of, `below(n)` from `state`.
pub open spec fn below_spec(state: u128, n: u64) -> (u128, u64) {
    let s1 = pcg_advance(state);
    let (s, x) = lemire_accept(s1, pcg_output(s1), n, two128());
    (s, lemire_value(x, n) as u64)
}

/// The smallest draw that Lemire's method accepts with result `r`:
/// `ceil((r * 2^64 + threshold) / n)`.
pub open spec fn lemire_first(n: u64, r: nat) -> nat {
    ((r * two64() + lemire_threshold(n) + n - 1) / (n as int)) as nat
}

/// Lemire's method is unbiased: for every result `r < n`, the accepted draws that yield `r` are
/// exactly the `floor(2^64 / n)` consecutive values starting at `lemire_first(n, r)` — the same
/// number of draws for every result.
pub proof fn lemma_lemire_unbiased(n: u64, r: nat, x: u64)
    requires
        n > 0,
        r < n,
    ensures
        (lemire_accepts(x, n) && lemire_value(x, n) == r) <==> (lemire_first(n, r) <= x
            < lemire_first(n, r) + two64() / (n as nat)),
{
    let big_t = two64() as int;
    let ni = n as int;
    let t = lemire_threshold(n) as int;
    let q = big_t / ni;
    let xn = x as int * ni;
    let a = r * big_t + t;
    let f = (a + ni - 1) / ni;
    vstd::arithmetic::div_mod::lemma_fundamental_div_mod(big_t, ni);
    vstd::arithmetic::div_mod::lemma_mod_pos_bound(big_t, ni);
    assert(t == big_t % ni) by {
        vstd::arithmetic::div_mod::lemma_mod_add_multiples_vanish(big_t - ni, ni);
        assert(big_t - ni + ni == big_t);
        assert(((big_t - ni) % ni) == (big_t % ni)) by {
            vstd::arithmetic::div_mod::lemma_mod_sub_multiples_vanish(big_t, ni);
        }
    }
    // The upper end of the interval, ceil(((r + 1) * 2^64) / n), is f + q.
    assert((r + 1) * big_t == a + q * ni) by (nonlinear_arith)
        requires
            big_t == ni * q + t,
            a == r * big_t + t;
    assert((a + q * ni + ni - 1) / ni == f + q) by {
        vstd::arithmetic::div_mod::lemma_hoist_over_denominator(a + ni - 1, q, ni as nat);
    }
    // f * n is the least multiple of n that is at least a.
    vstd::arithmetic::div_mod::lemma_fundamental_div_mod(a + ni - 1, ni);
    vstd::arithmetic::div_mod::lemma_mod_pos_bound(a + ni - 1, ni);
    assert(f * ni >= a && (f - 1) * ni < a) by (nonlinear_arith)
        requires
            a + ni - 1 == ni * f + (a + ni - 1) % ni,
            0 <= (a + ni - 1) % ni < ni;
    let g = f + q;
    assert(g * ni >= (r + 1) * big_t && (g - 1) * ni < (r + 1) * big_t) by (nonlinear_arith)
        requires
            f * ni >= a,
            (f - 1) * ni < a,
            g == f + q,
            (r + 1) * big_t == a + q * ni;
    // x * n lies in [a, (r + 1) * 2^64) exactly when f <= x < g.
    assert((a <= xn && xn < (r + 1) * big_t) <==> (f <= x && x < g)) by (nonlinear_arith)
        requires
            xn == x * ni,
            ni > 0,
            f * ni >= a,
            (f - 1) * ni < a,
            g * ni >= (r + 1) * big_t,
            (g - 1) * ni < (r + 1) * big_t;
    // Accepted with result r exactly when x * n lies in [a, (r + 1) * 2^64).
    vstd::arithmetic::div_mod::lemma_fundamental_div_mod(xn, big_t);
    vstd::arithmetic::div_mod::lemma_mod_pos_bound(xn, big_t);
    if a <= xn && xn < (r + 1) * big_t {
        vstd::arithmetic::div_mod::lemma_fundamental_div_mod_converse(xn, big_t, r as int, xn - r * big_t);
    }
    if xn / big_t == r {
        assert(xn - r * big_t == xn % big_t) by (nonlinear_arith)
            requires
                xn == big_t * (xn / big_t) + xn % big_t,
                xn / big_t == r;
        assert(xn < (r + 1) * big_t) by (nonlinear_arith)
            requires
                xn == big_t * r + xn % big_t,
                xn % big_t < big_t;
    }
}

/// The state whose output is all ones: its high half is zero and its low half all ones.
pub open spec fn all_ones_state() -> u128 {
    0xFFFF_FFFF_FFFF_FFFFu128
}

/// The all-ones draw is accepted for every bound: `(2^64 - 1) n mod 2^64 = 2^64 - n`, which is at
/// least the threshold `(2^64 - n) mod n`.
proof fn lemma_all_ones_accepted(n: u64)
    requires
        n > 0,
    ensures
        pcg_output(all_ones_state()) == 0xFFFF_FFFF_FFFF_FFFFu64,
        lemire_accepts(0xFFFF_FFFF_FFFF_FFFFu64, n),
{
    let st = all_ones_state();
    assert(((st >> 64u128) ^ st) as u64 == 0xFFFF_FFFF_FFFF_FFFFu64) by (bit_vector)
        requires
            st == 0xFFFF_FFFF_FFFF_FFFFu128,
    ;
    assert((st >> 122u128) as u32 == 0u32) by (bit_vector)
        requires
            st == 0xFFFF_FFFF_FFFF_FFFFu128,
    ;
    let big_t = two64() as int;
    let ni = n as int;
    assert(0xFFFF_FFFF_FFFF_FFFFnat * ni == big_t * (ni - 1) + (big_t - ni)) by (nonlinear_arith)
        requires
            big_t == 0x1_0000_0000_0000_0000int,
    ;
    vstd::arithmetic::div_mod::lemma_mod_multiples_vanish(ni - 1, big_t - ni, big_t);
    vstd::arithmetic::div_mod::lemma_small_mod((big_t - ni) as nat, two64());
    vstd::arithmetic::div_mod::lemma_mod_decreases((big_t - ni) as nat, n as nat);
}

/// Once the all-ones state lies `d` steps ahead, the rejection loop stops within those `d` steps:
/// its result with any fuel of at least `d` is its result with fuel `d`, and that draw is accepted.
proof fn lemma_lemire_settles(state: u128, n: u64, d: nat, fuel: nat)
    requires
        n > 0,
        lcg_iterate(state, d) == all_ones_state(),
        d <= fuel,
    ensures
        lemire_accept(state, pcg_output(state), n, fuel) == lemire_accept(
            state,
            pcg_output(state),
            n,
            d,
        ),
        lemire_accepts(lemire_accept(state, pcg_output(state), n, d).1, n),
    decreases d,
{
    lemma_all_ones_accepted(n);
    if !lemire_accepts(pcg_output(state), n) {
        assert(d > 0);
        let s2 = pcg_advance(state);
        lemma_iterate_shift(state, (d - 1) as nat);
        lemma_lemire_settles(s2, n, (d - 1) as nat, (fuel - 1) as nat);
    }
}

/// [`Prng::below`] never runs out of redraws: the draw it settles on is always accepted by
/// Lemire's test, so its result is the first accepted draw of the stream.
pub proof fn lemma_below_accepts(state: u128, n: u64)
    requires
        n > 0,
    ensures
        lemire_accepts(
            lemire_accept(pcg_advance(state), pcg_output(pcg_advance(state)), n, two128()).1,
            n,
        ),
{
    let s1 = pcg_advance(state);
    let d = lemma_reach(s1, all_ones_state());
    lemma_lemire_settles(s1, n, d, two128());
}

/// The Fisher–Yates passes for positions `i, i - 1, ..., 1`: position `p` is swapped with a
/// position drawn by `below(p + 1)`.
pub open spec fn shuffle_from<T>(state: u128, s: Seq<T>, i: nat) -> (u128, Seq<T>)
    decreases i,
{
    if i == 0 {
        (state, s)
    } else {
        let (st, j) = below_spec(state, (i + 1) as u64);
        shuffle_from(
            st,
            s.update(i as int, s[j as int]).update(j as int, s[i as int]),
            (i - 1) as nat,
        )
    }
}

/// The state after, and the sequence produced by, shuffling `s` from `state`.
pub open spec fn shuffle_spec<T>(state: u128, s: Seq<T>) -> (u128, Seq<T>) {
    if s.len() == 0 {
        (state, s)
    } else {
        shuffle_from(state, s, (s.len() - 1) as nat)
    }
}

/// The state after the draws `below(i + 1), below(i), ..., below(2)` from `state`, in that order.
pub open spec fn after_draws(state: u128, i: nat) -> u128
    decreases i,
{
    if i == 0 {
        state
    } else {
        after_draws(below_spec(state, (i + 1) as u64).0, (i - 1) as nat)
    }
}

/// A bounded draw lies below its bound.
pub proof fn lemma_below_spec_bound(state: u128, n: u64)
    requires
        n > 0,
    ensures
        below_spec(state, n).1 < n,
{
    let s1 = pcg_advance(state);
    let x = lemire_accept(s1, pcg_output(s1), n, two128()).1;
    assert((x as nat * n as nat) / two64() < n as nat) by (nonlinear_arith)
        requires
            x <= 0xFFFF_FFFF_FFFF_FFFFu64,
            n > 0,
            two64() == 0x1_0000_0000_0000_0000nat,
    ;
}

/// The passes for positions `i` down to `1` make one bounded draw each, keep the length, and
/// leave every position above `i` untouched.
proof fn lemma_shuffle_from_facts<T>(state: u128, s: Seq<T>, i: nat)
    requires
        i < s.len(),
        s.len() <= u64::MAX,
    ensures
        shuffle_from(state, s, i).0 == after_draws(state, i),
        shuffle_from(state, s, i).1.len() == s.len(),
        forall|p: int| i < p < s.len() ==> #[trigger] shuffle_from(state, s, i).1[p] == s[p],
    decreases i,
{
    if i > 0 {
        let (st, j) = below_spec(state, (i + 1) as u64);
        lemma_below_spec_bound(state, (i + 1) as u64);
        let s2 = s.update(i as int, s[j as int]).update(j as int, s[i as int]);
        lemma_shuffle_from_facts(st, s2, (i - 1) as nat);
        assert forall|p: int| i < p < s.len() implies #[trigger] shuffle_from(state, s, i).1[p] == s[p] by {
            assert(shuffle_from(st, s2, (i - 1) as nat).1[p] == s2[p]);
        }
    }
}

/// Shuffling a slice of length `n >= 1` makes exactly one bounded draw per position, from
/// `below(n)` for position `n - 1` down to `below(2)` for position `1`, and keeps the length.
pub proof fn lemma_shuffle_draws<T>(state: u128, s: Seq<T>)
    requires
        1 <= s.len() <= u64::MAX,
    ensures
        shuffle_spec(state, s).0 == after_draws(state, (s.len() - 1) as nat),
        shuffle_spec(state, s).1.len() == s.len(),
{
    lemma_shuffle_from_facts(state, s, (s.len() - 1) as nat);
}

/// The first pass fixes the last position: after shuffling a slice of length `n >= 2`, its last
/// element is the element at the position drawn by the first draw, `below(n)`.
pub proof fn lemma_shuffle_last_is_first_draw<T>(state: u128, s: Seq<T>)
    requires
        2 <= s.len() <= u64::MAX,
    ensures
        shuffle_spec(state, s).1[s.len() - 1] == s[below_spec(state, s.len() as u64).1 as int],
{
    let n = s.len();
    let i = (n - 1) as nat;
    let (st, j) = below_spec(state, (i + 1) as u64);
    lemma_below_spec_bound(state, (i + 1) as u64);
    let s2 = s.update(i as int, s[j as int]).update(j as int, s[i as int]);
    lemma_shuffle_from_facts(st, s2, (i - 1) as nat);
    assert(shuffle_from(st, s2, (i - 1) as nat).1[i as int] == s2[i as int]);
    if j as int != i as int {
        assert(s2[i as int] == s[j as int]);
    }
}

/// The passes for positions `i` down to `1` only look at the first `m > i` positions: running them
/// on the first `m` positions alone gives the same draws and the same first `m` positions.
proof fn lemma_shuffle_from_prefix<T>(state: u128, s: Seq<T>, i: nat, m: nat)
    requires
        i < m <= s.len(),
        s.len() <= u64::MAX,
    ensures
        shuffle_from(state, s.take(m as int), i).0 == shuffle_from(state, s, i).0,
        shuffle_from(state, s.take(m as int), i).1 == shuffle_from(state, s, i).1.take(m as int),
    decreases i,
{
    lemma_shuffle_from_facts(state, s, i);
    lemma_shuffle_from_facts(state, s.take(m as int), i);
    if i == 0 {
    } else {
        let (st, j) = below_spec(state, (i + 1) as u64);
        lemma_below_spec_bound(state, (i + 1) as u64);
        let s2 = s.update(i as int, s[j as int]).update(j as int, s[i as int]);
        let t = s.take(m as int);
        let t2 = t.update(i as int, t[j as int]).update(j as int, t[i as int]);
        assert(t2 =~= s2.take(m as int));
        lemma_shuffle_from_prefix(st, s2, (i - 1) as nat, m);
    }
}

/// Shuffling `n >= 2` elements first exchanges the last element with the one at the position drawn
/// by `below(n)`, then shuffles the first `n - 1` positions from the state after that draw; the
/// drawn element stays last. (With a slice of fewer than two elements left unchanged and no draw
/// made, this determines the whole shuffle.)
pub proof fn lemma_shuffle_peel_last<T>(state: u128, s: Seq<T>)
    requires
        2 <= s.len() <= u64::MAX,
    ensures
        ({
            let n = s.len();
            let (st, j) = below_spec(state, n as u64);
            let swapped = s.update((n - 1) as int, s[j as int]).update(j as int, s[n - 1]);
            let rest = shuffle_spec(st, swapped.take(n - 1));
            shuffle_spec(state, s) == (rest.0, rest.1.push(s[j as int]))
        }),
{
    let n = s.len();
    let i = (n - 1) as nat;
    let (st, j) = below_spec(state, n as u64);
    lemma_below_spec_bound(state, n as u64);
    let swapped = s.update(i as int, s[j as int]).update(j as int, s[i as int]);
    assert(shuffle_spec(state, s) == shuffle_from(st, swapped, (i - 1) as nat));
    lemma_shuffle_from_facts(st, swapped, (i - 1) as nat);
    lemma_shuffle_from_prefix(st, swapped, (i - 1) as nat, i);
    assert(swapped.take(i as int).len() == i);
    let out = shuffle_from(st, swapped, (i - 1) as nat).1;
    assert(out[i as int] == swapped[i as int]);
    if j as int != i as int {
        assert(swapped[i as int] == s[j as int]);
    }
    assert(out =~= out.take(i as int).push(s[j as int]));
}

/// Shuffling fewer than two elements makes no draw and changes nothing.
pub proof fn lemma_shuffle_short<T>(state: u128, s: Seq<T>)
    requires
        s.len() < 2,
    ensures
        shuffle_spec(state, s) == (state, s),
{
}

/// Shuffling two elements draws `below(2)` once and swaps them exactly when the draw is `0`.
pub proof fn lemma_shuffle_pair<T>(state: u128, a: T, b: T)
    ensures
        shuffle_spec(state, seq![a, b]) == (
            below_spec(state, 2).0,
            if below_spec(state, 2).1 == 0 {
                seq![b, a]
            } else {
                seq![a, b]
            },
        ),
{
    let s = seq![a, b];
    lemma_below_spec_bound(state, 2);
    let (st, j) = below_spec(state, 2);
    let s2 = s.update(1, s[j as int]).update(j as int, s[1]);
    assert(shuffle_spec(state, s) == shuffle_from(state, s, 1));
    assert(shuffle_from(state, s, 1) == shuffle_from(st, s2, 0));
    if j == 0 {
        assert(s2 =~= seq![b, a]);
    } else {
        assert(s2 =~= seq![a, b]);
    }
}

/// PCG64 (XSL-RR 128/64): a 128-bit LCG whose state drives an xorshift-low + random-rotate output.
#[derive(Clone, Debug)]
pub struct Prng {
    state: u128,
}

impl View for Prng {
    type V = u128;

    /// The generator's 128-bit LCG state.
    closed spec fn view(&self) -> u128 {
        self.state
    }
}

proof fn lemma_u64_wrapping_mul(x: u64, y: u64)
    ensures
        vstd::wrapping::u64_specs::wrapping_mul(x, y) == ((x as nat * y as nat) % two64()) as u64,
{
}

proof fn lemma_advance_is_wrapping(state: u128)
    ensures
        vstd::wrapping::u128_specs::wrapping_add(
            vstd::wrapping::u128_specs::wrapping_mul(state, PCG_MULT),
            PCG_INC,
        ) == pcg_advance(state),
{
    let prod = state as nat * PCG_MULT as nat;
    let a = (prod % two128()) as u128;
    vstd::arithmetic::div_mod::lemma_add_mod_noop(prod as int, PCG_INC as int, two128() as int);
    vstd::arithmetic::div_mod::lemma_small_mod(PCG_INC as nat, two128());
    if a as nat + PCG_INC as nat >= two128() {
        let b = a as nat + PCG_INC as nat - two128();
        vstd::arithmetic::div_mod::lemma_mod_add_multiples_vanish(b as int, two128() as int);
        vstd::arithmetic::div_mod::lemma_small_mod(b as nat, two128());
    } else {
        vstd::arithmetic::div_mod::lemma_small_mod((a as nat + PCG_INC as nat), two128());
    }
}

/// Swapping two positions of a sequence keeps its multiset of elements.
pub proof fn lemma_swap_to_multiset<T>(s: Seq<T>, i: int, j: int)
    requires
        0 <= i < s.len(),
        0 <= j < s.len(),
    ensures
        s.update(i, s[j]).update(j, s[i]).to_multiset() == s.to_multiset(),
{
    broadcast use vstd::seq_lib::to_multiset_update;
    broadcast use vstd::multiset::group_multiset_axioms;
    broadcast use vstd::multiset::group_multiset_properties;
    let s1 = s.update(i, s[j]);
    assert(s1.to_multiset() == s.to_multiset().insert(s[j]).remove(s[i]));
    assert(s1.update(j, s[i]).to_multiset() == s1.to_multiset().insert(s[i]).remove(s1[j]));
    if i == j {
        assert(s1 =~= s);
    } else {
        assert(s1[j] == s[j]);
    }
    let m = s.to_multiset();
    assert(m.count(s[i]) > 0) by {
        broadcast use vstd::seq_lib::to_multiset_contains;
        assert(s.contains(s[i]));
    }
    let m1 = m.insert(s[j]).remove(s[i]);
    let m2 = m1.insert(s[i]).remove(s[j]);
    assert forall|v: T| #[trigger] m2.count(v) == m.count(v) by {
        if v == s[i] && v == s[j] {
        } else if v == s[i] {
        } else if v == s[j] {
        } else {
        }
    }
    assert(m2 =~= m);
}

proof fn lemma_lemire_product(x: u64, n: u64)
    ensures
        x as nat * n as nat <= u128::MAX,
{
    assert(x as nat * n as nat <= 0xFFFF_FFFF_FFFF_FFFFnat * 0xFFFF_FFFF_FFFF_FFFFnat) by (nonlinear_arith)
        requires
            x <= 0xFFFF_FFFF_FFFF_FFFFu64,
            n <= 0xFFFF_FFFF_FFFF_FFFFu64;
}

proof fn lemma_low_word(m: u128)
    ensures
        (m as u64) as nat == m as nat % two64(),
{
    assert((m as u64) as u128 == m % 0x1_0000_0000_0000_0000u128) by (bit_vector);
}

fn rotate_right_u64(x: u64, r: u32) -> (out: u64)
    requires
        r < 64,
    ensures
        out == rotr64(x, r),
{
    if r == 0 {
        x
    } else {
        (x >> r) | (x << (64 - r))
    }
}

/// One SplitMix64 step: advance `sm` by the golden gamma and return the finalised value.
fn splitmix64_next(sm: &mut u64) -> (out: u64)
    ensures
        *final(sm) == ((*old(sm) as nat + SPLITMIX_GAMMA as nat) % two64()) as u64,
        out == splitmix_mix(*final(sm)),
{
    *sm = sm.wrapping_add(SPLITMIX_GAMMA);
    let mut z = *sm;
    proof {
        lemma_u64_wrapping_mul(z ^ (z >> 30u64), SPLITMIX_MUL1);
    }
    z = (z ^ (z >> 30)).wrapping_mul(SPLITMIX_MUL1);
    proof {
        lemma_u64_wrapping_mul(z ^ (z >> 27u64), SPLITMIX_MUL2);
    }
    z = (z ^ (z >> 27)).wrapping_mul(SPLITMIX_MUL2);
    z ^ (z >> 31)
}

impl Prng {
    /// Creates a PRNG from a `u64` seed, expanding it to the 128-bit state with SplitMix64 (so
    /// even low-entropy seeds like `0` or `1` start in a well-mixed state), then advancing once so
    /// the first output does not expose the seed expansion.
    pub fn seed_from_u64(seed: u64) -> (p: Self)
        ensures
            p@ == seeded_state(seed),
    {
        let mut sm = seed;
        let lo64 = splitmix64_next(&mut sm);
        let hi64 = splitmix64_next(&mut sm);
        proof {
            let s1 = ((seed as nat + SPLITMIX_GAMMA as nat) % two64());
            vstd::arithmetic::div_mod::lemma_add_mod_noop(
                (seed as nat + SPLITMIX_GAMMA as nat) as int,
                SPLITMIX_GAMMA as int,
                two64() as int,
            );
            vstd::arithmetic::div_mod::lemma_small_mod(SPLITMIX_GAMMA as nat, two64());
            assert(s1 == splitmix_state(seed, 1));
            assert(sm == splitmix_state(seed, 2));
        }
        let lo = lo64 as u128;
        let hi = hi64 as u128;
        let joined = (hi << 64) | lo;
        proof {
            assert(((hi << 64u128) | lo) == hi * 0x1_0000_0000_0000_0000u128 + lo) by (bit_vector)
                requires
                    hi < 0x1_0000_0000_0000_0000u128,
                    lo < 0x1_0000_0000_0000_0000u128,
            ;
        }
        let mut prng = Prng { state: joined };
        prng.next_u64();
        prng
    }

    /// The core PCG64 step: advance the LCG, then emit the XSL-RR output of the new state.
    pub fn next_u64(&mut self) -> (out: u64)
        ensures
            final(self)@ == pcg_advance(old(self)@),
            out == pcg_output(final(self)@),
    {
        proof {
            lemma_advance_is_wrapping(self.state);
        }
        self.state = self.state.wrapping_mul(PCG_MULT).wrapping_add(PCG_INC);
        let s = self.state;
        assert((s >> 122u128) < 64) by (bit_vector);
        let rot = (self.state >> 122) as u32;
        let xsl = ((self.state >> 64) ^ self.state) as u64;
        rotate_right_u64(xsl, rot)
    }

    /// A uniform index in `0..n` (`n > 0`), by Lemire's multiply-shift method with rejection of the
    /// biased low zone, so the result is a deterministic function of the stream.
    pub fn below(&mut self, n: usize) -> (r: usize)
        requires
            n > 0,
        ensures
            (final(self)@, r as u64) == below_spec(old(self)@, n as u64),
            r < n,
    {
        let n64 = n as u64;
        let mut x = self.next_u64();
        let ghost s1 = self@;
        let ghost x1 = x;
        proof {
            lemma_lemire_product(x, n64);
        }
        let mut m: u128 = (x as u128) * (n64 as u128);
        let mut low = #[verifier::truncate] (m as u64);
        proof {
            lemma_low_word(m);
        }
        if low < n64 {
            // (2^64 - n) mod n, computed without 2^64 overflow
            let threshold = (u64::MAX - n64 + 1) % n64;
            assert(threshold == lemire_threshold(n64));
            let ghost mut dist: nat = 0;
            proof {
                dist = lemma_reach(s1, all_ones_state());
                lemma_lemire_settles(s1, n64, dist, two128());
            }
            while low < threshold
                invariant
                    n64 == n as u64,
                    0 < n64,
                    threshold == lemire_threshold(n64),
                    m as nat == x as nat * n64 as nat,
                    low as nat == (x as nat * n64 as nat) % two64(),
                    x == pcg_output(self@),
                    lcg_iterate(self@, dist) == all_ones_state(),
                    lemire_accept(self@, x, n64, dist) == lemire_accept(s1, x1, n64, two128()),
                decreases dist,
            {
                proof {
                    lemma_all_ones_accepted(n64);
                    if dist == 0 {
                        assert(self@ == all_ones_state());
                    }
                    lemma_iterate_shift(self@, (dist - 1) as nat);
                }
                x = self.next_u64();
                proof {
                    dist = (dist - 1) as nat;
                    lemma_lemire_product(x, n64);
                }
                m = (x as u128) * (n64 as u128);
                low = #[verifier::truncate] (m as u64);
                proof {
                    lemma_low_word(m);
                }
            }
        } else {
            assert(lemire_threshold(n64) < n64);
        }
        let hi = m >> 64;
        proof {
            assert(m >> 64u128 == m / 0x1_0000_0000_0000_0000u128) by (bit_vector);
            assert(m as nat / two64() < n64 as nat) by (nonlinear_arith)
                requires
                    m as nat == x as nat * n64 as nat,
                    x <= 0xFFFF_FFFF_FFFF_FFFFu64,
                    n64 > 0,
                    two64() == 0x1_0000_0000_0000_0000nat;
        }
        hi as usize
    }

    /// In-place Fisher–Yates shuffle, drawing swap indices from the stream: from the last position
    /// down to position 1, each element is swapped with a uniformly drawn earlier-or-equal position.
    pub fn shuffle<T>(&mut self, slice: &mut [T])
        ensures
            (final(self)@, final(slice)@) == shuffle_spec(old(self)@, old(slice)@),
            final(slice)@.to_multiset() == old(slice)@.to_multiset(),
    {
        let len = slice.len();
        if len == 0 {
            return;
        }
        let ghost target = shuffle_spec(self@, slice@);
        let ghost orig = slice@;
        let mut k = len;
        while k > 1
            invariant
                1 <= k <= len,
                slice@.len() == len,
                shuffle_from(self@, slice@, (k - 1) as nat) == target,
                slice@.to_multiset() == orig.to_multiset(),
            decreases k,
        {
            k = k - 1;
            let j = self.below(k + 1);
            proof {
                lemma_swap_to_multiset(slice@, k as int, j as int);
            }
            slice.swap(k, j);
        }
    }
}

} // verus!
