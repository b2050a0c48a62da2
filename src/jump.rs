use vstd::arithmetic::div_mod::{
    lemma_add_mod_noop,
    lemma_div_denominator,
    lemma_fundamental_div_mod,
    lemma_fundamental_div_mod_converse,
    lemma_mod_twice,
};
use vstd::arithmetic::power2::{
    lemma2_to64,
    lemma_pow2_adds,
    lemma_pow2_pos,
    lemma_pow2_strictly_increases,
    lemma_pow2_unfold,
    pow2,
};
use vstd::bits::lemma_u64_shr_is_div;
use std::hash::{Hash, Hasher};
use vstd::prelude::*;

verus! {

/// Multiplier of the 64-bit linear congruential generator embedded in the walk.
pub const LCG_MULTIPLIER: u64 = 2862933555777941757;

/// One step of the generator: `h * LCG_MULTIPLIER + 1` modulo 2^64.
pub open spec fn lcg_next(h: u64) -> u64 {
    ((h as int * LCG_MULTIPLIER as int + 1) % 0x1_0000_0000_0000_0000) as u64
}

/// Largest `e` with `2^e <= x` (and 0 for `x <= 1`).
pub open spec fn log2_floor(x: nat) -> nat
    decreases x,
{
    if x < 2 {
        0
    } else {
        1 + log2_floor(x / 2)
    }
}

/// The quotient `m` with remainder `rem` (out of `d`) rounded to the nearest
/// integer, ties going to the even one.
pub open spec fn round_half_even(m: nat, rem: nat, d: nat) -> nat {
    if 2 * rem > d || (2 * rem == d && m % 2 == 1) {
        m + 1
    } else {
        m
    }
}

/// For `n >= d >= 1`: the quotient `n / d` rounded to the nearest value with a
/// 53-bit significand (ties to even), as a double-precision division gives it,
/// then truncated toward zero.
pub open spec fn double_quotient_trunc(n: nat, d: nat) -> nat {
    let e = log2_floor(n / d);
    if e < 52 {
        let s = pow2((52 - e) as nat);
        round_half_even((n * s) / d, (n * s) % d, d) / s
    } else {
        let g = pow2((e - 52) as nat);
        round_half_even(n / (d * g), n % (d * g), d * g) * g
    }
}

/// The index the walk jumps to from candidate `b` once the generator is in
/// state `h`: `(b + 1) * 2^31 / ((h >> 33) + 1)`, divided in double precision
/// and truncated.
pub open spec fn jump_target(b: nat, h: u64) -> nat {
    double_quotient_trunc((b + 1) * pow2(31), (h >> 33u64) as nat + 1)
}

/// The bucket that the walk settles on, from candidate `b` with the generator in
/// state `h` (before its next step), for `buckets` buckets.
pub open spec fn jump_walk(b: nat, h: u64, buckets: u32) -> nat
    decreases buckets - b,
    via jump_walk_decreases
{
    if b < buckets {
        let h1 = lcg_next(h);
        let j = jump_target(b, h1);
        if j < buckets {
            jump_walk(j, h1, buckets)
        } else {
            b
        }
    } else {
        b
    }
}

#[via_fn]
proof fn jump_walk_decreases(b: nat, h: u64, buckets: u32) {
    if b < buckets {
        lemma_target_above(b, lcg_next(h));
    }
}

/// The bucket of seed `seed` among `buckets` buckets.
pub open spec fn jump_bucket(seed: u64, buckets: u32) -> nat {
    jump_walk(0, seed, buckets)
}

proof fn lemma_log2_bounds(x: nat)
    requires
        x >= 1,
    ensures
        pow2(log2_floor(x)) <= x < pow2(log2_floor(x) + 1),
    decreases x,
{
    lemma_pow2_unfold(log2_floor(x) + 1);
    if x >= 2 {
        lemma_log2_bounds(x / 2);
        lemma_pow2_unfold(log2_floor(x));
    } else {
        lemma_pow2_unfold(1);
        lemma2_to64();
    }
}

/// Where the quotient is below 2^52 the rounded, truncated quotient is the
/// integer quotient `k`, or `k + 1` exactly when `n / d` lies within half a
/// unit in the last place below `k + 1`.
proof fn lemma_quotient_small(n: nat, d: nat)
    requires
        d >= 1,
        n >= d,
        log2_floor(n / d) < 52,
    ensures
        double_quotient_trunc(n, d) == if 2 * pow2((52 - log2_floor(n / d)) as nat) * (d - n % d)
            <= d {
            n / d + 1
        } else {
            n / d
        },
{
    let k = n / d;
    let r = n % d;
    let e = log2_floor(k);
    let s = pow2((52 - e) as nat);
    lemma_pow2_unfold((52 - e) as nat);
    let h = pow2((51 - e) as nat);
    assert(s == 2 * h);
    lemma_pow2_pos((51 - e) as nat);
    lemma_fundamental_div_mod(n as int, d as int);
    let a = (r * s) / d;
    let c = (r * s) % d;
    lemma_fundamental_div_mod((r * s) as int, d as int);
    assert(n * s == (k * s + a) * d + c) by (nonlinear_arith)
        requires
            n == d * k + r,
            r * s == d * a + c,
    ;
    lemma_fundamental_div_mod_converse((n * s) as int, d as int, (k * s + a) as int, c as int);
    assert(a < s) by (nonlinear_arith)
        requires
            r * s == d * a + c,
            c >= 0,
            r < d,
            s > 0,
    ;
    let m = k * s + a;
    let rounded = round_half_even(m, c, d);
    assert(rounded <= m + 1);
    let cond = 2 * s * (d - r) <= d;
    if cond {
        assert(a == s - 1) by (nonlinear_arith)
            requires
                r * s == d * a + c,
                0 <= c < d,
                a < s,
                2 * s * (d - r) <= d,
        ;
        assert(2 * c >= d) by (nonlinear_arith)
            requires
                r * s == d * a + c,
                a == s - 1,
                2 * s * (d - r) <= d,
        ;
        assert(m == 2 * (k * h + h - 1) + 1) by (nonlinear_arith)
            requires
                m == k * (2 * h) + 2 * h - 1,
                h >= 1,
        ;
        lemma_fundamental_div_mod_converse(m as int, 2, (k * h + h - 1) as int, 1);
        assert(rounded == (k + 1) * s) by (nonlinear_arith)
            requires
                rounded == m + 1,
                m == k * s + s - 1,
        ;
        lemma_fundamental_div_mod_converse(rounded as int, s as int, (k + 1) as int, 0);
    } else {
        if a == s - 1 {
            assert(2 * c < d) by (nonlinear_arith)
                requires
                    r * s == d * a + c,
                    a == s - 1,
                    2 * s * (d - r) > d,
            ;
        }
        assert(a + (rounded - m) < s);
        lemma_fundamental_div_mod_converse(rounded as int, s as int, k as int, (a + (rounded - m)) as int);
    }
}

/// Where the quotient reaches 2^52 so does its rounded value.
proof fn lemma_quotient_large(n: nat, d: nat)
    requires
        d >= 1,
        log2_floor(n / d) >= 52,
    ensures
        double_quotient_trunc(n, d) >= pow2(52),
{
    let k = n / d;
    let e = log2_floor(k);
    let g = pow2((e - 52) as nat);
    lemma_pow2_pos((e - 52) as nat);
    lemma_pow2_adds(52, (e - 52) as nat);
    assert(k >= 1) by {
        if k == 0 {
            assert(log2_floor(0) == 0);
        }
    }
    lemma_log2_bounds(k);
    lemma_div_denominator(n as int, d as int, g as int);
    let m = n / (d * g);
    assert(m == k / g);
    assert(m >= pow2(52)) by {
        lemma_fundamental_div_mod(k as int, g as int);
        assert(k / g >= pow2(52)) by (nonlinear_arith)
            requires
                k >= pow2(52) * g,
                k == g * (k / g) + k % g,
                k % g < g,
                g > 0,
        ;
    }
    assert(round_half_even(m, n % (d * g), d * g) * g >= pow2(52)) by (nonlinear_arith)
        requires
            round_half_even(m, n % (d * g), d * g) >= m,
            m >= pow2(52),
            g >= 1,
    ;
}

/// The rounded, truncated quotient is at least the integer quotient, unless both
/// are 2^52 or more.
proof fn lemma_quotient_lower(n: nat, d: nat)
    requires
        d >= 1,
        n >= d,
    ensures
        double_quotient_trunc(n, d) >= n / d || double_quotient_trunc(n, d) >= pow2(52),
{
    if log2_floor(n / d) < 52 {
        lemma_quotient_small(n, d);
    } else {
        lemma_quotient_large(n, d);
    }
}

proof fn lemma_divisor_range(h: u64)
    ensures
        1 <= (h >> 33u64) as nat + 1 <= pow2(31),
{
    assert(h >> 33u64 <= 0x7fff_ffffu64) by (bit_vector);
    lemma2_to64();
}

/// The numerator of a jump from candidate `b` is at least the divisor, and
/// their integer quotient exceeds `b`.
proof fn lemma_jump_quotient(b: nat, h: u64)
    requires
        b < 0x1_0000_0000,
    ensures
        (b + 1) * pow2(31) >= (h >> 33u64) as nat + 1,
        ((b + 1) * pow2(31)) / ((h >> 33u64) as nat + 1) > b,
{
    let n = (b + 1) * pow2(31);
    let d = (h >> 33u64) as nat + 1;
    lemma_divisor_range(h);
    assert(n >= (b + 1) * d) by (nonlinear_arith)
        requires
            n == (b + 1) * pow2(31),
            d <= pow2(31),
    ;
    lemma_fundamental_div_mod(n as int, d as int);
    assert(n / d >= b + 1) by (nonlinear_arith)
        requires
            n >= (b + 1) * d,
            n == d * (n / d) + n % d,
            n % d < d,
            d >= 1,
    ;
    assert(n >= d) by (nonlinear_arith)
        requires
            n >= (b + 1) * d,
            d >= 1,
    ;
}

/// Every jump goes forward: the next candidate exceeds `b`.
proof fn lemma_target_above(b: nat, h: u64)
    requires
        b < 0x1_0000_0000,
    ensures
        jump_target(b, h) > b,
{
    lemma_jump_quotient(b, h);
    lemma_divisor_range(h);
    lemma_quotient_lower((b + 1) * pow2(31), (h >> 33u64) as nat + 1);
    lemma2_to64();
    lemma_pow2_strictly_increases(32, 52);
}

fn lcg_step(h: u64) -> (r: u64)
    ensures
        r == lcg_next(h),
{
    let r = h.wrapping_mul(LCG_MULTIPLIER).wrapping_add(1);
    proof {
        let m: int = 0x1_0000_0000_0000_0000;
        let p = h as int * LCG_MULTIPLIER as int;
        lemma_add_mod_noop(p, 1, m);
        lemma_mod_twice(p, m);
        assert(1int % m == 1);
    }
    r
}

fn floor_log2_u64(x: u64) -> (e: u64)
    requires
        x >= 1,
    ensures
        e == log2_floor(x as nat),
        e < 64,
{
    proof {
        lemma_log2_bounds(x as nat);
        lemma2_to64();
        if log2_floor(x as nat) >= 64 {
            lemma_pow2_strictly_increases(64, log2_floor(x as nat));
        }
    }
    let mut e: u64 = 0;
    let mut y: u64 = x;
    while y >= 2
        invariant
            y >= 1,
            e + log2_floor(y as nat) == log2_floor(x as nat),
            log2_floor(x as nat) < 64,
        decreases y,
    {
        y = y / 2;
        e = e + 1;
    }
    e
}

/// The next candidate after `b` with the generator in state `h`: exact where it
/// is below `buckets`, and otherwise some value of at least `buckets`.
fn next_candidate(b: u32, h: u64, buckets: u32) -> (j: u64)
    requires
        b < buckets,
    ensures
        (j < buckets) == (jump_target(b as nat, h) < buckets),
        j < buckets ==> j == jump_target(b as nat, h),
{
    proof {
        lemma_divisor_range(h);
        lemma2_to64();
    }
    let n: u64 = (b as u64 + 1) * 2147483648;
    let d: u64 = (h >> 33) + 1;
    let k: u64 = n / d;
    proof {
        lemma_jump_quotient(b as nat, h);
        lemma_quotient_lower(n as nat, d as nat);
        lemma_pow2_strictly_increases(32, 52);
    }
    if k >= buckets as u64 {
        return k;
    }
    let r: u64 = n % d;
    let e: u64 = floor_log2_u64(k);
    proof {
        lemma_pow2_strictly_increases(32, 52);
        if e >= 32 {
            lemma_log2_bounds(k as nat);
            lemma_pow2_strictly_increases(32, e as nat);
        }
        lemma_quotient_small(n as nat, d as nat);
    }
    let t: u64 = 53 - e;
    let limit: u64 = d >> t;
    proof {
        lemma_u64_shr_is_div(d, t);
        lemma_pow2_unfold(t as nat);
        let p = pow2(t as nat);
        let dn = d as nat;
        let x = (d - r) as nat;
        lemma_pow2_pos(t as nat);
        lemma_fundamental_div_mod(dn as int, p as int);
        assert((x <= dn / p) == (x * p <= dn)) by (nonlinear_arith)
            requires
                p > 0,
                dn == p * (dn / p) + dn % p,
                0 <= dn % p < p,
        ;
        let sp = pow2((52 - e) as nat);
        assert(p == 2 * sp);
        assert(x * p == 2 * sp * x) by (nonlinear_arith)
            requires
                p == 2 * sp,
        ;
    }
    if d - r <= limit {
        k + 1
    } else {
        k
    }
}

/// The bucket, in `[0, buckets)`, of the 64-bit key `key`. The walk that picks it
/// depends on `key` and `buckets` alone.
pub fn jump_hash_from_u64(key: u64, buckets: u32) -> (r: u32)
    requires
        buckets >= 1,
    ensures
        r == jump_bucket(key, buckets),
        r < buckets,
{
    let mut b: u32 = 0;
    let mut h: u64 = key;
    loop
        invariant
            b < buckets,
            jump_walk(b as nat, h, buckets) == jump_bucket(key, buckets),
        decreases buckets - b,
    {
        h = lcg_step(h);
        let j = next_candidate(b, h, buckets);
        if j >= buckets as u64 {
            return b;
        }
        proof {
            lemma_target_above(b as nat, h);
        }
        b = j as u32;
    }
}

/// The digest that std's `DefaultHasher` gives for a string.
pub uninterp spec fn default_hash_of(s: Seq<char>) -> u64;

/// Relies on `DefaultHasher::new`, `str::hash` and `Hasher::finish`: a hasher
/// made by `new` always starts from the same keys, so the digest depends on the
/// string alone.
#[verifier::external_body]
fn str_digest(key: &str) -> (r: u64)
    ensures
        r == default_hash_of(key@),
{
    let mut hasher = std::collections::hash_map::DefaultHasher::new();
    key.hash(&mut hasher);
    hasher.finish()
}

/// The bucket, in `[0, buckets)`, of the string `key`: its digest, walked as
/// `jump_hash_from_u64` walks a 64-bit key.
pub fn jump_hash_from_str(key: &str, buckets: u32) -> (r: u32)
    requires
        buckets >= 1,
    ensures
        r == jump_bucket(default_hash_of(key@), buckets),
        r < buckets,
{
    let seed = str_digest(key);
    jump_hash_from_u64(seed, buckets)
}

proof fn lemma_walk_grow(b: nat, h: u64, n: u32)
    requires
        b < n < u32::MAX,
    ensures
        jump_walk(b, h, (n + 1) as u32) == jump_walk(b, h, n) || jump_walk(b, h, (n + 1) as u32)
            == n,
    decreases n - b,
{
    let h1 = lcg_next(h);
    let j = jump_target(b, h1);
    lemma_target_above(b, h1);
    if j < n {
        lemma_walk_grow(j, h1, n);
    } else if j == n {
        lemma_target_above(n as nat, lcg_next(h1));
        assert(jump_walk(n as nat, h1, (n + 1) as u32) == n);
    }
}

/// Adding a bucket moves a key only into the new bucket: with `n + 1` buckets
/// a seed lands where it landed with `n`, or in bucket `n`.
pub proof fn lemma_minimal_disruption(seed: u64, n: u32)
    requires
        1 <= n < u32::MAX,
    ensures
        jump_bucket(seed, (n + 1) as u32) == jump_bucket(seed, n) || jump_bucket(seed, (n + 1) as u32)
            == n,
{
    lemma_walk_grow(0, seed, n);
}

/// The bucket is a function of the seed and the bucket count: equal arguments
/// give equal buckets, on every call.
pub proof fn lemma_deterministic(seed1: u64, seed2: u64, buckets: u32)
    requires
        seed1 == seed2,
    ensures
        jump_bucket(seed1, buckets) == jump_bucket(seed2, buckets),
{
}

/// A string key lands in the same bucket each time it is looked up with the
/// same bucket count.
pub proof fn lemma_str_key_stable(key1: Seq<char>, key2: Seq<char>, buckets: u32)
    requires
        key1 == key2,
    ensures
        jump_bucket(default_hash_of(key1), buckets) == jump_bucket(default_hash_of(key2), buckets),
{
}

} // verus!
