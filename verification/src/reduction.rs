//! How many tokens a fractional reduction leaves.
//!
//! A fraction is given by the bits of a single-precision number, so that the
//! arithmetic here is exact: a fraction between 0 and 1 is an integer below
//! 2^24 over a power of two.
use vstd::arithmetic::div_mod::{
    lemma_div_is_ordered, lemma_div_multiples_vanish_fancy, lemma_fundamental_div_mod,
};
use vstd::arithmetic::power2::{
    lemma2_to64, lemma_pow2_adds, lemma_pow2_pos, lemma_pow2_strictly_increases, lemma_pow2_unfold,
    pow2,
};
use vstd::prelude::*;

verus! {

/// The number that `bits` stand for is negative, zero, or no number.
pub open spec fn not_positive(bits: u32) -> bool {
    bits == 0 || bits > 0x7f80_0000
}

/// The fraction that positive `bits` stand for is one or more.
pub open spec fn at_least_one(bits: u32) -> bool {
    0x3f80_0000 <= bits <= 0x7f80_0000
}

/// The numerator of a positive fraction below one.
pub open spec fn fraction_numer(bits: u32) -> nat {
    if bits < 0x80_0000 {
        bits as nat
    } else {
        (bits % 0x80_0000 + 0x80_0000) as nat
    }
}

/// The denominator of a positive fraction below one is two to this power.
pub open spec fn fraction_shift(bits: u32) -> nat {
    if bits < 0x80_0000 {
        149
    } else {
        (150 - bits / 0x80_0000) as nat
    }
}

/// `raw * (1 - fraction)`, rounded to the nearest integer, halves up; the
/// fraction is clamped to lie between 0 and 1, and what is no number counts as
/// 0.
pub open spec fn reduced(raw: nat, bits: u32) -> nat {
    if not_positive(bits) {
        raw
    } else if at_least_one(bits) {
        0
    } else {
        let d = pow2(fraction_shift(bits));
        ((2 * (raw * (d - fraction_numer(bits))) + d) / (2 * d) as int) as nat
    }
}

/// Two to the power `s`.
fn two_to(s: u32) -> (d: u128)
    requires
        s <= 88,
    ensures
        d == pow2(s as nat),
{
    let mut d: u128 = 1;
    let mut k: u32 = 0;
    proof {
        lemma2_to64();
        lemma_pow2_adds(64, 24);
    }
    while k < s
        invariant
            k <= s <= 88,
            d == pow2(k as nat),
            pow2(88) == 0x1_0000_0000_0000_0000 * 0x100_0000,
        decreases s - k,
    {
        proof {
            lemma_pow2_unfold((k + 1) as nat);
            if k < 88 {
                lemma_pow2_strictly_increases(k as nat, 88);
            }
        }
        d = d * 2;
        k += 1;
    }
    d
}

/// The rounding, from the part that is taken away.
proof fn lemma_rounded(raw: int, numer: int, d: int, c: int)
    requires
        0 <= numer <= d,
        0 < d,
        0 <= raw,
        0 <= c,
        2 * d * c >= 2 * (raw * numer) - d,
        c > 0 ==> 2 * d * (c - 1) < 2 * (raw * numer) - d,
    ensures
        (2 * (raw * (d - numer)) + d) / (2 * d) == raw - c,
{
    let t = raw * numer;
    let b = 2 * d * c - (2 * t - d);
    assert(raw * (d - numer) == raw * d - t) by (nonlinear_arith)
        requires
            t == raw * numer,
    ;
    assert(2 * d * (c - 1) == 2 * d * c - 2 * d) by (nonlinear_arith);
    assert(2 * (raw * d) == (2 * d) * raw) by (nonlinear_arith);
    assert((2 * d) * (raw - c) == (2 * d) * raw - 2 * d * c) by (nonlinear_arith);
    assert(t >= 0) by (nonlinear_arith)
        requires
            t == raw * numer,
            raw >= 0,
            numer >= 0,
    ;
    assert(0 <= b < 2 * d) by {
        if c == 0 {
            assert(2 * d * c == 0) by (nonlinear_arith)
                requires
                    c == 0,
            ;
        }
    }
    lemma_div_multiples_vanish_fancy(raw - c, b, 2 * d);
    assert(2 * (raw * (d - numer)) + d == (2 * d) * (raw - c) + b);
}

/// What a reduction by the fraction with the given bits leaves of `raw`.
pub fn apply_reduction(raw: usize, bits: u32) -> (n: usize)
    ensures
        n == reduced(raw as nat, bits),
        n <= raw,
{
    if bits == 0 || bits > 0x7f80_0000 {
        return raw;
    }
    if bits >= 0x3f80_0000 {
        return 0;
    }
    let (numer, shift): (u32, u32) = if bits < 0x80_0000 {
        (bits, 149)
    } else {
        (bits % 0x80_0000 + 0x80_0000, 150 - bits / 0x80_0000)
    };
    let ghost d = pow2(shift as nat) as int;
    proof {
        lemma_pow2_pos(shift as nat);
        lemma2_to64();
        lemma_pow2_adds(64, 24);
        lemma_pow2_adds(88, 1);
        assert(raw * numer < 0x1_0000_0000_0000_0000 * 0x100_0000) by (nonlinear_arith)
            requires
                0 <= raw < 0x1_0000_0000_0000_0000,
                0 <= numer < 0x100_0000,
        ;
        if shift > 24 {
            lemma_pow2_strictly_increases(24, shift as nat);
        }
        assert(numer <= d);
    }
    if shift >= 89 {
        proof {
            if shift > 89 {
                lemma_pow2_strictly_increases(89, shift as nat);
            }
            assert(2 * d * 0 == 0);
            lemma_rounded(raw as int, numer as int, d, 0);
        }
        return raw;
    }
    let twice: u128 = 2 * (raw as u128 * numer as u128);
    let den: u128 = two_to(shift);
    proof {
        if shift < 88 {
            lemma_pow2_strictly_increases(shift as nat, 88);
        }
    }
    if twice <= den {
        proof {
            assert(2 * d * 0 == 0);
            lemma_rounded(raw as int, numer as int, d, 0);
        }
        return raw;
    }
    let over: u128 = twice - den;
    let part: u128 = over / (2 * den);
    let rest: u128 = over % (2 * den);
    let taken: u128 = if rest == 0 {
        part
    } else {
        part + 1
    };
    proof {
        let x = over as int;
        let e = 2 * d;
        lemma_fundamental_div_mod(x, e);
        let q = x / e;
        assert(part == q);
        assert(rest == x % e);
        assert(0 <= x % e < e) by (nonlinear_arith)
            requires
                e > 0,
        ;
        assert(e * (q + 1) == e * q + e) by (nonlinear_arith);
        assert(e * (q - 1) == e * q - e) by (nonlinear_arith);
        lemma_rounded(raw as int, numer as int, d, taken as int);
        assert(0 <= 2 * (raw * (d - numer)) + d) by (nonlinear_arith)
            requires
                raw >= 0,
                d >= numer,
                d > 0,
        ;
        assert((2 * (raw * (d - numer)) + d) / (2 * d) >= 0) by (nonlinear_arith)
            requires
                0 <= 2 * (raw * (d - numer)) + d,
                d > 0,
        ;
        assert(taken <= raw);
    }
    raw - taken as usize
}

/// The denominator of the single-precision number nearest to `pct / 100` is two
/// to this power, where it is at least two to the power `s`.
pub open spec fn percent_shift(pct: nat, s: nat) -> nat
    decreases 40 - s,
{
    if s >= 40 || pct * pow2(s) >= 100 * 0x80_0000 {
        s
    } else {
        percent_shift(pct, s + 1)
    }
}

/// The bits of the single-precision number nearest to `pct / 100`, where
/// percentages above 100 count as 100.
pub open spec fn percent_bits(pct: u8) -> u32 {
    if pct == 0 {
        0
    } else if pct >= 100 {
        0x3f80_0000
    } else {
        let s = percent_shift(pct as nat, 23);
        let m = (pct * pow2(s) + 50) / 100;
        ((150 - s) * 0x80_0000 + (m - 0x80_0000)) as u32
    }
}

/// The bits of the single-precision number nearest to `pct / 100`.
pub fn bits_of_percent(pct: u8) -> (bits: u32)
    ensures
        bits == percent_bits(pct),
{
    if pct == 0 {
        return 0;
    }
    if pct >= 100 {
        return 0x3f80_0000;
    }
    let mut s: u32 = 23;
    let mut scaled: u64 = pct as u64 * 0x80_0000;
    proof {
        lemma2_to64();
    }
    while scaled < 100 * 0x80_0000
        invariant
            23 <= s <= 40,
            0 < pct < 100,
            pow2(30) == 0x4000_0000,
            scaled == pct * pow2(s as nat),
            scaled < 200 * 0x80_0000,
            percent_shift(pct as nat, 23) == percent_shift(pct as nat, s as nat),
            s > 23 ==> s <= 30,
        decreases 40 - s,
    {
        proof {
            lemma_pow2_unfold((s + 1) as nat);
            let p = pow2(s as nat);
            assert(pct * (2 * p) == 2 * (pct * p)) by (nonlinear_arith);
            if s >= 30 {
                if s > 30 {
                    lemma_pow2_strictly_increases(30, s as nat);
                }
                assert(pct * p >= p) by (nonlinear_arith)
                    requires
                        pct >= 1,
                        p >= 0,
                ;
            }
        }
        scaled = scaled * 2;
        s += 1;
    }
    let m: u64 = (scaled + 50) / 100;
    let e: u32 = 150 - s;
    e * 0x80_0000 + (m as u32 - 0x80_0000)
}

/// The tokens that a reduction by `reduction_pct` percent leaves of
/// `raw_tokens`.
pub fn target_for_reduction(raw_tokens: usize, reduction_pct: u8) -> (n: usize)
    ensures
        n == reduced(raw_tokens as nat, percent_bits(reduction_pct)),
        n <= raw_tokens,
{
    apply_reduction(raw_tokens, bits_of_percent(reduction_pct))
}

/// A positive fraction below one as an integer over two to the power 149.
spec fn scaled(bits: u32) -> int {
    (fraction_numer(bits) * pow2((149 - fraction_shift(bits)) as nat)) as int
}

proof fn lemma_scaled_grows(small: u32, large: u32)
    requires
        0 < small <= large < 0x3f80_0000,
    ensures
        0 <= scaled(small) <= scaled(large) <= pow2(149),
{
    let j = (149 - fraction_shift(small)) as nat;
    let k = (149 - fraction_shift(large)) as nat;
    lemma_pow2_pos(j);
    lemma_pow2_pos(k);
    lemma2_to64();
    let m = fraction_numer(small) as int;
    let n = fraction_numer(large) as int;
    let p = pow2(j) as int;
    let q = pow2(k) as int;
    if j == k {
        assert(m <= n);
        assert(m * p <= n * q) by (nonlinear_arith)
            requires
                m <= n,
                p == q,
                p >= 0,
        ;
    } else {
        assert(j < k);
        lemma_pow2_adds(j, (k - j) as nat);
        lemma_pow2_unfold((k - j) as nat);
        lemma_pow2_pos((k - j - 1) as nat);
        let r = pow2((k - j) as nat) as int;
        assert(m * p <= n * q) by (nonlinear_arith)
            requires
                0 <= m <= 0x100_0000,
                n >= 0x80_0000,
                q == p * r,
                r >= 2,
                p >= 0,
        ;
    }
    assert(m * p >= 0) by (nonlinear_arith)
        requires
            m >= 0,
            p >= 0,
    ;
    lemma_pow2_adds(k, 24);
    if k + 24 < 149 {
        lemma_pow2_strictly_increases(k + 24, 149);
    }
    assert(n * q <= q * 0x100_0000) by (nonlinear_arith)
        requires
            n <= 0x100_0000,
            q >= 0,
    ;
}

proof fn lemma_reduced_scaled(raw: nat, bits: u32)
    requires
        0 < bits < 0x3f80_0000,
    ensures
        reduced(raw, bits) == (2 * (raw * (pow2(149) - scaled(bits))) + pow2(149)) / (2 * pow2(
            149,
        ) as int),
{
    let d = pow2(fraction_shift(bits)) as int;
    let n = fraction_numer(bits) as int;
    let k = pow2((149 - fraction_shift(bits)) as nat) as int;
    lemma_pow2_pos(fraction_shift(bits));
    lemma_pow2_pos((149 - fraction_shift(bits)) as nat);
    lemma_pow2_adds((149 - fraction_shift(bits)) as nat, fraction_shift(bits));
    lemma_scaled_grows(bits, bits);
    let top = 2 * (raw * (d - n)) + d;
    assert(d - n >= 0) by (nonlinear_arith)
        requires
            n * k <= k * d,
            k > 0,
    ;
    assert(raw * (d - n) >= 0) by (nonlinear_arith)
        requires
            d - n >= 0,
    ;
    assert(2 * (raw * (k * d - n * k)) + k * d == k * top) by (nonlinear_arith)
        requires
            top == 2 * (raw * (d - n)) + d,
    ;
    assert(2 * (k * d) == k * (2 * d)) by (nonlinear_arith);
    lemma_common_factor(top, 2 * d, k);
    assert(pow2(149) == k * d);
}

proof fn lemma_common_factor(a: int, b: int, k: int)
    requires
        a >= 0,
        b > 0,
        k > 0,
    ensures
        (k * a) / (k * b) == a / b,
{
    let q = a / b;
    let r = a % b;
    lemma_fundamental_div_mod(a, b);
    assert(k * a == (k * b) * q + k * r) by (nonlinear_arith)
        requires
            a == b * q + r,
    ;
    assert(0 <= k * r < k * b) by (nonlinear_arith)
        requires
            0 <= r < b,
            k > 0,
    ;
    lemma_div_multiples_vanish_fancy(q, k * r, k * b);
}

/// A larger fraction leaves no more.
pub proof fn law_larger_fraction_leaves_less(raw: nat, small: u32, large: u32)
    requires
        small <= large <= 0x7f80_0000,
    ensures
        reduced(raw, large) <= reduced(raw, small) <= raw,
    decreases large - small,
{
    if 0 < small < 0x3f80_0000 {
        lemma_reduced_scaled(raw, small);
        lemma_scaled_grows(small, small);
        let d = pow2(149) as int;
        lemma_pow2_pos(149);
        let x = scaled(small);
        assert(raw * (d - x) <= raw * d) by (nonlinear_arith)
            requires
                x >= 0,
        ;
        assert(2 * (raw * d) + d == (2 * d) * raw + d) by (nonlinear_arith);
        lemma_div_multiples_vanish_fancy(raw as int, d, 2 * d);
        lemma_div_is_ordered(2 * (raw * (d - x)) + d, 2 * (raw * d) + d, 2 * d);
        if large < 0x3f80_0000 {
            lemma_reduced_scaled(raw, large);
            lemma_scaled_grows(small, large);
            let y = scaled(large);
            assert(raw * (d - y) <= raw * (d - x)) by (nonlinear_arith)
                requires
                    x <= y,
            ;
            lemma_div_is_ordered(2 * (raw * (d - y)) + d, 2 * (raw * (d - x)) + d, 2 * d);
        } else {
            assert(raw * (d - x) >= 0) by (nonlinear_arith)
                requires
                    x <= d,
            ;
            lemma_div_is_ordered(0, 2 * (raw * (d - x)) + d, 2 * d);
        }
    } else if small == 0 && 0 < large < 0x3f80_0000 {
        law_larger_fraction_leaves_less(raw, large, large);
    }
}

/// The shift of each percentage, and with it the numerator has 24 bits.
proof fn lemma_percent_shift(pct: u8)
    requires
        0 < pct < 100,
    ensures
        ({
            let s = percent_shift(pct as nat, 23);
            let m = (pct * pow2(s) + 50) / 100;
            &&& s == (if pct >= 50 {
                24nat
            } else if pct >= 25 {
                25
            } else if pct >= 13 {
                26
            } else if pct >= 7 {
                27
            } else if pct >= 4 {
                28
            } else if pct >= 2 {
                29
            } else {
                30
            })
            &&& 0x80_0000 <= m <= 0x100_0000
            &&& percent_bits(pct) == (150 - s) * 0x80_0000 + (m - 0x80_0000)
        }),
{
    lemma2_to64();
    reveal_with_fuel(percent_shift, 9);
}

/// The bits of a larger percentage are no smaller.
proof fn lemma_percent_bits_grow(small: u8, large: u8)
    requires
        small <= large,
    ensures
        percent_bits(small) <= percent_bits(large) <= 0x3f80_0000,
{
    lemma2_to64();
    if 0 < small < 100 {
        lemma_percent_shift(small);
    }
    if 0 < large < 100 {
        lemma_percent_shift(large);
        if 0 < small {
            let s = percent_shift(small as nat, 23);
            let t = percent_shift(large as nat, 23);
            if s == t {
                let p = pow2(s) as int;
                assert(small * p <= large * p) by (nonlinear_arith)
                    requires
                        small <= large,
                        p >= 0,
                ;
            } else {
                assert(t + 1 <= s);
            }
        }
    }
}

/// A larger percentage leaves no more.
pub proof fn law_larger_percentage_leaves_less(raw: nat, small: u8, large: u8)
    requires
        small <= large,
    ensures
        reduced(raw, percent_bits(large)) <= reduced(raw, percent_bits(small)) <= raw,
{
    lemma_percent_bits_grow(small, large);
    law_larger_fraction_leaves_less(raw, percent_bits(small), percent_bits(large));
}

/// No reduction leaves everything, a full one nothing.
pub proof fn law_reduction_endpoints(raw: nat)
    ensures
        reduced(raw, percent_bits(0)) == raw,
        reduced(raw, percent_bits(100)) == 0,
{
}

/// What a fraction leaves is the rest of the tokens, rounded to the nearest: a
/// single-precision number below 1 with exponent field `e` and fraction field `f`
/// is (2^23 + f) / 2^(150 - e), or f / 2^149 if `e` is 0. A number that is not
/// positive leaves all, one from 1 on nothing.
pub proof fn law_rounded_rest(raw: nat, e: nat, f: nat)
    requires
        e <= 126,
        f < 0x80_0000,
        e * 0x80_0000 + f > 0,
    ensures
        ({
            let left = reduced(raw, (e * 0x80_0000 + f) as u32);
            let d = pow2(if e == 0 {
                149
            } else {
                (150 - e) as nat
            });
            let n = if e == 0 {
                f
            } else {
                0x80_0000 + f
            };
            &&& 2 * d * left <= 2 * (raw * (d - n)) + d
            &&& 2 * d * (left + 1) > 2 * (raw * (d - n)) + d
        }),
        reduced(raw, 0) == raw,
        forall|bits: u32| bits > 0x7f80_0000 ==> #[trigger] reduced(raw, bits) == raw,
        forall|bits: u32| 0x3f80_0000 <= bits <= 0x7f80_0000 ==> #[trigger] reduced(raw, bits) == 0,
{
    let bits = (e * 0x80_0000 + f) as u32;
    assert(bits == e * 0x80_0000 + f);
    assert(bits < 0x3f80_0000);
    assert(bits / 0x80_0000 == e && bits % 0x80_0000 == f) by (nonlinear_arith)
        requires
            bits == e * 0x80_0000 + f,
            f < 0x80_0000,
    ;
    let d = pow2(fraction_shift(bits)) as int;
    let n = fraction_numer(bits) as int;
    lemma_pow2_pos(fraction_shift(bits));
    if e > 0 {
        lemma2_to64();
        assert(pow2(24) <= d) by {
            if 150 - e > 24 {
                lemma_pow2_strictly_increases(24, (150 - e) as nat);
            }
        }
    } else {
        lemma2_to64();
        lemma_pow2_strictly_increases(24, 149);
    }
    let a = 2 * (raw * (d - n)) + d;
    assert(raw * (d - n) >= 0) by (nonlinear_arith)
        requires
            raw >= 0,
            d >= n,
    ;
    lemma_fundamental_div_mod(a, 2 * d);
    let q = a / (2 * d);
    assert(q >= 0) by (nonlinear_arith)
        requires
            q == a / (2 * d),
            a >= 0,
            d > 0,
    ;
    assert(2 * d * q <= a && 2 * d * (q + 1) > a) by (nonlinear_arith)
        requires
            a == 2 * d * q + a % (2 * d),
            d > 0,
    ;
}

/// A percentage from 1 to 99 is the single-precision number nearest to it.
pub proof fn law_percentage(pct: u8)
    requires
        0 < pct < 100,
    ensures
        exists|e: nat, m: nat|
            #![trigger pow2(e), m + 0]
            1 <= 150 - e <= 126 && percent_bits(pct) == (150 - e) * 0x80_0000 + m && m <= 0x80_0000
                && -50 <= 100 * (0x80_0000 + m) - pct * pow2(e) <= 50,
{
    lemma_percent_shift(pct);
    let s = percent_shift(pct as nat, 23);
    let m = ((pct * pow2(s) + 50) / 100) as nat;
    let e = s;
    let f = (m - 0x80_0000) as nat;
    assert(pow2(e) == pow2(s));
    assert(f + 0 == f);
    assert(100 * m <= pct * pow2(s) + 50 < 100 * m + 100);
}

} // verus!
