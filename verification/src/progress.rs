//! How far something has come, as a bar and in percent.
//!
//! Shares are those of binary floating point with 53 significant bits, computed
//! on integers.

use crate::text::push_char;
use vstd::arithmetic::mul::*;
use vstd::arithmetic::power2::*;
use vstd::prelude::*;

verus! {

/// How many signs a bar has.
pub const DEFAULT_PROGRESS_WIDTH: u64 = 18;

/// The whole number nearest to a fraction, the even one of two that are as near.
pub open spec fn half_even(n: nat, d: nat) -> nat {
    let floor = n / d;
    let rest = n % d;
    if 2 * rest > d || (2 * rest == d && floor % 2 == 1) { floor + 1 } else { floor }
}

/// The place value of the last of 53 bits of a whole number.
pub open spec fn last_bit(n: nat) -> nat
    decreases n,
{
    if n < 0x20_0000_0000_0000 { 1 } else { 2 * last_bit(n / 2) }
}

/// A whole number rounded to 53 bits.
pub open spec fn rounded(n: nat) -> nat {
    half_even(n, last_bit(n)) * last_bit(n)
}

/// By how much a fraction has to be doubled to have 53 bits before the point.
pub open spec fn raise(n: nat, d: nat) -> nat
    decreases if n >= 0x10_0000_0000_0000 * d { 0 } else { 0x10_0000_0000_0000 * d - n },
{
    if n == 0 || n >= 0x10_0000_0000_0000 * d { 1 } else { 2 * raise(2 * n, d) }
}

/// A fraction rounded to 53 bits, times a width, rounded to 53 bits, and then to
/// the nearest whole number, the greater of two that are as near.
pub open spec fn share_of(n: nat, d: nat, width: nat) -> nat {
    let scale = raise(n, d);
    let ratio = half_even(n * scale, d);
    (2 * rounded(ratio * width) + scale) / (2 * scale)
}

/// How much of a width stands for what is completed of a total.
pub open spec fn progress(completed: nat, total: nat, width: nat) -> nat {
    let whole = if total == 0 { 1 } else { total };
    let part = if completed < whole { completed } else { whole };
    share_of(rounded(part), rounded(whole), width)
}

proof fn half_even_is_near(n: nat, d: nat)
    requires
        d > 0,
    ensures
        2 * (half_even(n, d) * d) <= 2 * n + d,
        2 * n <= 2 * (half_even(n, d) * d) + d,
        d == 1 ==> half_even(n, d) == n,
{
    let floor = n / d;
    let rest = n % d;
    vstd::arithmetic::div_mod::lemma_fundamental_div_mod(n as int, d as int);
    assert((floor + 1) * d == floor * d + d) by (nonlinear_arith);
    assert(d * floor == floor * d) by (nonlinear_arith);
}

proof fn half_even_keeps_order(a: nat, b: nat, d: nat)
    requires
        d > 0,
        a <= b,
    ensures
        half_even(a, d) <= half_even(b, d),
{
    vstd::arithmetic::div_mod::lemma_fundamental_div_mod(a as int, d as int);
    vstd::arithmetic::div_mod::lemma_fundamental_div_mod(b as int, d as int);
    vstd::arithmetic::div_mod::lemma_div_is_ordered(a as int, b as int, d as int);
    if a / d == b / d {
        assert(a % d <= b % d);
    }
}

proof fn half_even_of_whole(q: nat, d: nat)
    requires
        d > 0,
    ensures
        half_even(q * d, d) == q,
{
    vstd::arithmetic::div_mod::lemma_fundamental_div_mod_converse((q * d) as int, d as int, q as int, 0);
}

proof fn last_bit_is_last(n: nat)
    ensures
        last_bit(n) >= 1,
        n < 0x20_0000_0000_0000 * last_bit(n),
        last_bit(n) > 1 ==> n >= 0x10_0000_0000_0000 * last_bit(n),
        last_bit(n) == 1 || last_bit(n) % 2 == 0,
    decreases n,
{
    if n >= 0x20_0000_0000_0000 {
        last_bit_is_last(n / 2);
        let unit = last_bit(n / 2);
        assert(0x20_0000_0000_0000 * (2 * unit) == 2 * (0x20_0000_0000_0000 * unit)) by (nonlinear_arith);
        assert(0x10_0000_0000_0000 * (2 * unit) == 2 * (0x10_0000_0000_0000 * unit)) by (nonlinear_arith);
    }
}

proof fn last_bits_keep_order(a: nat, b: nat)
    requires
        a <= b,
    ensures
        last_bit(a) <= last_bit(b),
        last_bit(a) == last_bit(b) || 2 * last_bit(a) <= last_bit(b),
    decreases b,
{
    last_bit_is_last(b);
    if a >= 0x20_0000_0000_0000 {
        last_bits_keep_order(a / 2, b / 2);
    } else if b >= 0x20_0000_0000_0000 {
        last_bit_is_last(b / 2);
    }
}

proof fn rounded_keeps_order(a: nat, b: nat)
    requires
        a <= b,
    ensures
        rounded(a) <= rounded(b),
{
    let ua = last_bit(a);
    let ub = last_bit(b);
    last_bit_is_last(a);
    last_bit_is_last(b);
    last_bits_keep_order(a, b);
    if ua == ub {
        half_even_keeps_order(a, b, ua);
        lemma_mul_inequality(half_even(a, ua) as int, half_even(b, ua) as int, ua as int);
    } else {
        half_even_keeps_order(a, (0x20_0000_0000_0000 * ua) as nat, ua);
        half_even_of_whole(0x20_0000_0000_0000nat, ua);
        lemma_mul_inequality(half_even(a, ua) as int, 0x20_0000_0000_0000int, ua as int);
        assert(rounded(a) <= 0x20_0000_0000_0000 * ua);
        half_even_keeps_order((0x10_0000_0000_0000 * ub) as nat, b, ub);
        half_even_of_whole(0x10_0000_0000_0000nat, ub);
        lemma_mul_inequality(0x10_0000_0000_0000int, half_even(b, ub) as int, ub as int);
        assert(0x10_0000_0000_0000 * ub <= rounded(b));
        assert(0x20_0000_0000_0000 * ua == 0x10_0000_0000_0000 * (2 * ua)) by (nonlinear_arith);
        lemma_mul_inequality(2 * ua as int, ub as int, 0x10_0000_0000_0000int);
        assert(0x10_0000_0000_0000 * (2 * ua) <= 0x10_0000_0000_0000 * ub) by (nonlinear_arith)
            requires
                2 * ua <= ub,
        ;
    }
}

proof fn rounded_is_near(n: nat)
    ensures
        0x10_0000_0000_0000 * (2 * rounded(n)) <= 0x10_0000_0000_0000 * (2 * n) + n,
        n > 0 ==> rounded(n) > 0,
        n < 0x20_0000_0000_0000 ==> rounded(n) == n,
{
    let unit = last_bit(n);
    last_bit_is_last(n);
    half_even_is_near(n, unit);
    if unit > 1 {
        assert(0x10_0000_0000_0000 * (2 * rounded(n)) <= 0x10_0000_0000_0000 * (2 * n) + 0x10_0000_0000_0000 * unit) by (nonlinear_arith)
            requires
                2 * rounded(n) <= 2 * n + unit,
        ;
        assert(n >= unit) by (nonlinear_arith)
            requires
                n >= 0x10_0000_0000_0000 * unit,
                unit > 0,
        ;
    } else {
        assert(n == half_even(n, 1) * 1);
        assert(0x10_0000_0000_0000 * (2 * rounded(n)) == 0x10_0000_0000_0000 * (2 * n));
    }
}

proof fn raise_is_least(n: nat, d: nat)
    requires
        d > 0,
    ensures
        raise(n, d) >= 1,
        n > 0 ==> n * raise(n, d) >= 0x10_0000_0000_0000 * d,
        raise(n, d) > 1 ==> n * raise(n, d) < 0x20_0000_0000_0000 * d,
    decreases if n >= 0x10_0000_0000_0000 * d { 0 } else { 0x10_0000_0000_0000 * d - n },
{
    if n > 0 && n < 0x10_0000_0000_0000 * d {
        raise_is_least(2 * n, d);
        let rest = raise(2 * n, d);
        assert(n * (2 * rest) == (2 * n) * rest) by (nonlinear_arith);
        if rest == 1 {
            assert((2 * n) * 1 == 2 * n);
        }
    } else {
        assert(n * 1 == n);
    }
}

/// A share of a width is never more than the width.
proof fn share_is_within(n: nat, d: nat, width: nat)
    requires
        0 < d,
        n <= d,
        width <= 100,
    ensures
        share_of(n, d, width) <= width,
        half_even(n * raise(n, d), d) <= raise(n, d),
        half_even(n * raise(n, d), d) <= 0x20_0000_0000_0000,
        n == 0 ==> share_of(n, d, width) == 0,
{
    let scale = raise(n, d);
    let ratio = half_even(n * scale, d);
    raise_is_least(n, d);
    lemma_mul_inequality(n as int, d as int, scale as int);
    assert(d * scale == scale * d) by (nonlinear_arith);
    half_even_keeps_order(n * scale, scale * d, d);
    half_even_of_whole(scale, d);
    let product = ratio * width;
    lemma_mul_inequality(ratio as int, scale as int, width as int);
    rounded_is_near(product);
    let w = rounded(product);
    if scale > 1 {
        half_even_keeps_order(n * scale, (0x20_0000_0000_0000 * d) as nat, d);
        half_even_of_whole(0x20_0000_0000_0000nat, d);
    }
    assert(2 * w < 2 * (scale * width) + scale) by (nonlinear_arith)
        requires
            0x10_0000_0000_0000 * (2 * w) <= 0x10_0000_0000_0000 * (2 * product) + product,
            product <= scale * width,
            width <= 100,
            scale >= 1,
    ;
    assert((2 * w + scale) / (2 * scale) <= width) by {
        assert(2 * w + scale < (width + 1) * (2 * scale)) by (nonlinear_arith)
            requires
                2 * w < 2 * (scale * width) + scale,
        ;
        assert((2 * w + scale) / (2 * scale) < width + 1) by (nonlinear_arith)
            requires
                2 * w + scale < (width + 1) * (2 * scale),
                scale >= 1,
                w >= 0,
        ;
    }
    if n == 0 {
        assert(0 * scale == 0);
        half_even_of_whole(0, d);
        assert(ratio == 0);
        assert(product == 0) by (nonlinear_arith)
            requires
                product == ratio * width,
                ratio == 0,
        ;
        assert(w == 0);
        assert((2 * w + scale) / (2 * scale) == 0);
    }
}

/// Progress is within the width, nothing at the start, and all of it at the end.
pub proof fn progress_is_within(completed: nat, total: nat, width: nat)
    requires
        width <= 100,
    ensures
        progress(completed, total, width) <= width,
        progress(0, total, width) == 0,
        completed >= total && completed > 0 ==> progress(completed, total, width) == width,
{
    let whole = if total == 0 { 1 } else { total };
    let part = if completed < whole { completed } else { whole };
    rounded_keeps_order(part, whole);
    rounded_is_near(whole);
    rounded_is_near(0);
    share_is_within(rounded(part), rounded(whole), width);
    share_is_within(0, rounded(whole), width);
    if completed >= total && completed > 0 {
        full_share(rounded(whole), width);
    }
}

proof fn scale_of_whole(d: nat, twice: nat, k: nat)
    requires
        d > 0,
        k <= 52,
        twice == vstd::arithmetic::power2::pow2(k),
    ensures
        raise(d * twice, d) * twice == 0x10_0000_0000_0000,
    decreases 52 - k,
{
    vstd::arithmetic::power2::lemma_pow2_pos(k);
    vstd::arithmetic::power2::lemma2_to64_rest();
    if k < 52 {
        vstd::arithmetic::power2::lemma_pow2_unfold(k + 1);
        vstd::arithmetic::power2::lemma_pow2_strictly_increases(k, 52);
        scale_of_whole(d, 2 * twice, k + 1);
        assert(d * (2 * twice) == 2 * (d * twice)) by (nonlinear_arith);
        assert(d * twice > 0) by (nonlinear_arith)
            requires
                d > 0,
                twice > 0,
        ;
        assert(d * twice < 0x10_0000_0000_0000 * d) by (nonlinear_arith)
            requires
                d > 0,
                twice < 0x10_0000_0000_0000,
        ;
        let rest = raise(2 * (d * twice), d);
        assert((2 * rest) * twice == rest * (2 * twice)) by (nonlinear_arith);
    } else {
        assert(d * twice == 0x10_0000_0000_0000 * d) by (nonlinear_arith)
            requires
                twice == 0x10_0000_0000_0000,
        ;
    }
}

proof fn full_share(d: nat, width: nat)
    requires
        d > 0,
        width <= 100,
    ensures
        share_of(d, d, width) == width,
{
    vstd::arithmetic::power2::lemma2_to64();
    scale_of_whole(d, 1, 0);
    assert(d * 1 == d);
    let scale = raise(d, d);
    assert(scale == 0x10_0000_0000_0000);
    assert(d * scale == scale * d) by (nonlinear_arith);
    half_even_of_whole(scale, d);
    let product = scale * width;
    let unit = last_bit(product);
    small_units(width);
    assert(rounded(product) == product);
    assert(2 * product + scale == width * (2 * scale) + scale) by (nonlinear_arith)
        requires
            product == scale * width,
    ;
    vstd::arithmetic::div_mod::lemma_fundamental_div_mod_converse((2 * product + scale) as int, (2 * scale) as int, width as int, scale as int);
}

proof fn small_units(width: nat)
    requires
        width <= 100,
    ensures
        rounded((0x10_0000_0000_0000 * width) as nat) == 0x10_0000_0000_0000 * width,
{
    let product = (0x10_0000_0000_0000 * width) as nat;
    let unit = last_bit(product);
    reveal_with_fuel(last_bit, 8);
    assert(unit == 1 || unit == 2 || unit == 4 || unit == 8 || unit == 16 || unit == 32 || unit == 64);
    assert(product % unit == 0);
    let q = product / unit;
    vstd::arithmetic::div_mod::lemma_fundamental_div_mod(product as int, unit as int);
    assert(unit * q == q * unit) by (nonlinear_arith);
    half_even_of_whole(q, unit);
}

proof fn rounded_twice(n: nat)
    ensures
        rounded(2 * n) == 2 * rounded(n),
{
    let unit = last_bit(n);
    last_bit_is_last(n);
    if n >= 0x10_0000_0000_0000 {
        assert((2 * n) / 2 == n);
        assert(last_bit(2 * n) == 2 * unit);
        vstd::arithmetic::div_mod::lemma_fundamental_div_mod(n as int, unit as int);
        let floor = n / unit;
        let rest = n % unit;
        assert(2 * n == floor * (2 * unit) + 2 * rest) by (nonlinear_arith)
            requires
                n == unit * floor + rest,
        ;
        vstd::arithmetic::div_mod::lemma_fundamental_div_mod_converse((2 * n) as int, (2 * unit) as int, floor as int, (2 * rest) as int);
        assert(half_even(2 * n, 2 * unit) == half_even(n, unit));
        let q = half_even(n, unit);
        assert(q * (2 * unit) == 2 * (q * unit)) by (nonlinear_arith);
    } else {
        rounded_is_near(n);
        rounded_is_near(2 * n);
    }
}

proof fn rounded_scales(n: nat, e: nat)
    ensures
        rounded(pow2(e) * n) == pow2(e) * rounded(n),
    decreases e,
{
    lemma2_to64();
    if e == 0 {
        assert(pow2(0) * n == n);
        assert(pow2(0) * rounded(n) == rounded(n));
    } else {
        rounded_scales(n, (e - 1) as nat);
        lemma_pow2_unfold(e);
        let half = pow2((e - 1) as nat);
        assert(pow2(e) * n == 2 * (half * n)) by (nonlinear_arith)
            requires
                pow2(e) == 2 * half,
        ;
        assert(pow2(e) * rounded(n) == 2 * (half * rounded(n))) by (nonlinear_arith)
            requires
                pow2(e) == 2 * half,
        ;
        rounded_twice(half * n);
    }
}

proof fn raise_is_a_power(n: nat, d: nat) -> (e: nat)
    requires
        d > 0,
    ensures
        raise(n, d) == pow2(e),
    decreases if n >= 0x10_0000_0000_0000 * d { 0 } else { 0x10_0000_0000_0000 * d - n },
{
    lemma2_to64();
    if n == 0 || n >= 0x10_0000_0000_0000 * d {
        0
    } else {
        let e = raise_is_a_power(2 * n, d);
        lemma_pow2_unfold(e + 1);
        e + 1
    }
}

proof fn raises_keep_order(a: nat, b: nat, d: nat) -> (e: nat)
    requires
        d > 0,
        0 < a <= b,
    ensures
        raise(a, d) == pow2(e) * raise(b, d),
    decreases if a >= 0x10_0000_0000_0000 * d { 0 } else { 0x10_0000_0000_0000 * d - a },
{
    lemma2_to64();
    if b >= 0x10_0000_0000_0000 * d {
        let e = raise_is_a_power(a, d);
        assert(pow2(e) * 1 == pow2(e));
        e
    } else {
        let e = raises_keep_order(2 * a, 2 * b, d);
        let rest = raise(2 * b, d);
        assert(2 * (pow2(e) * rest) == pow2(e) * (2 * rest)) by (nonlinear_arith);
        e
    }
}

proof fn shares_keep_order(a: nat, b: nat, d: nat, width: nat)
    requires
        0 < d,
        a <= b <= d,
        width <= 100,
    ensures
        share_of(a, d, width) <= share_of(b, d, width),
{
    share_is_within(a, d, width);
    if a > 0 {
        let e = raises_keep_order(a, b, d);
        let k = pow2(e);
        let sa = raise(a, d);
        let sb = raise(b, d);
        let ra = half_even(a * sa, d);
        let rb = half_even(b * sb, d);
        raise_is_least(a, d);
        raise_is_least(b, d);
        lemma_pow2_pos(e);
        lemma2_to64();
        if e == 0 {
            assert(k == 1);
            assert(k * sb == sb) by (nonlinear_arith)
                requires
                    k == 1,
            ;
            lemma_mul_inequality(a as int, b as int, sa as int);
            half_even_keeps_order(a * sa, b * sb, d);
            assert(k * rb == rb) by (nonlinear_arith)
                requires
                    k == 1,
            ;
        } else {
            lemma_pow2_unfold(e);
            lemma_pow2_pos((e - 1) as nat);
            assert(sa > 1) by (nonlinear_arith)
                requires
                    sa == k * sb,
                    k >= 2,
                    sb >= 1,
            ;
            half_even_keeps_order(a * sa, (0x20_0000_0000_0000 * d) as nat, d);
            half_even_of_whole(0x20_0000_0000_0000nat, d);
            half_even_keeps_order((0x10_0000_0000_0000 * d) as nat, b * sb, d);
            half_even_of_whole(0x10_0000_0000_0000nat, d);
            assert(k * rb >= 0x20_0000_0000_0000) by (nonlinear_arith)
                requires
                    k >= 2,
                    rb >= 0x10_0000_0000_0000,
            ;
        }
        assert(ra <= k * rb);
        lemma_mul_inequality(ra as int, (k * rb) as int, width as int);
        assert((k * rb) * width == k * (rb * width)) by (nonlinear_arith);
        rounded_keeps_order(ra * width, k * (rb * width));
        rounded_scales(rb * width, e);
        let wa = rounded(ra * width);
        let wb = rounded(rb * width);
        assert(2 * wa + sa <= k * (2 * wb + sb)) by (nonlinear_arith)
            requires
                wa <= k * wb,
                sa == k * sb,
        ;
        assert(2 * sa == k * (2 * sb)) by (nonlinear_arith)
            requires
                sa == k * sb,
        ;
        vstd::arithmetic::div_mod::lemma_div_is_ordered((2 * wa + sa) as int, (k * (2 * wb + sb)) as int, (2 * sa) as int);
        vstd::arithmetic::div_mod::lemma_div_multiples_vanish_quotient(k as int, (2 * wb + sb) as int, (2 * sb) as int);
    }
}

/// Progress never falls as more is completed.
pub proof fn progress_never_falls(a: nat, b: nat, total: nat, width: nat)
    requires
        a <= b,
        width <= 100,
    ensures
        progress(a, total, width) <= progress(b, total, width),
{
    let whole = if total == 0 { 1 } else { total };
    let first = if a < whole { a } else { whole };
    let second = if b < whole { b } else { whole };
    rounded_keeps_order(first, second);
    rounded_keeps_order(second, whole);
    rounded_is_near(whole);
    shares_keep_order(rounded(first), rounded(second), rounded(whole), width);
}

proof fn rounded_is_close(n: nat)
    ensures
        0x20_0000_0000_0000 * n <= 0x20_0000_0000_0000 * rounded(n) + n,
        0x20_0000_0000_0000 * rounded(n) <= 0x20_0000_0000_0000 * n + n,
{
    let unit = last_bit(n);
    last_bit_is_last(n);
    half_even_is_near(n, unit);
    rounded_is_near(n);
    if unit > 1 {
        assert(0x20_0000_0000_0000 * n <= 0x20_0000_0000_0000 * rounded(n) + 0x10_0000_0000_0000 * unit) by (nonlinear_arith)
            requires
                2 * n <= 2 * rounded(n) + unit,
        ;
    }
}

proof fn times(a: int, b: int, k: int)
    requires
        a <= b,
        0 <= k,
    ensures
        a * k <= b * k,
{
    lemma_mul_inequality(a, b, k);
}

/// Progress is near the true share of the width: half a sign apart, and a hundredth
/// more for the rounding of what is between.
pub proof fn progress_is_near(completed: nat, total: nat, width: nat)
    requires
        width <= 100,
    ensures
        ({
            let whole = if total == 0 { 1 } else { total };
            let part = if completed < whole { completed } else { whole };
            &&& 100 * (progress(completed, total, width) * whole) <= 100 * (width * part) + 51 * whole
            &&& 100 * (width * part) <= 100 * (progress(completed, total, width) * whole) + 51 * whole
        }),
{
    let whole: int = if total == 0 { 1 } else { total as int };
    let part: int = if completed < whole { completed as int } else { whole };
    let n = rounded(part as nat) as int;
    let d = rounded(whole as nat) as int;
    rounded_keeps_order(part as nat, whole as nat);
    rounded_is_near(whole as nat);
    rounded_is_near(part as nat);
    rounded_is_close(whole as nat);
    rounded_is_close(part as nat);
    share_is_within(n as nat, d as nat, width);
    let share = progress(completed, total, width) as int;
    if part == 0 {
        assert(rounded(0) == 0);
        assert(share * whole == 0) by (nonlinear_arith)
            requires
                share == 0,
        ;
        assert(width * part == 0) by (nonlinear_arith)
            requires
                part == 0,
        ;
    } else {
        let scale = raise(n as nat, d as nat) as int;
        let ratio = half_even((n * scale) as nat, d as nat) as int;
        let product = rounded((ratio * width) as nat) as int;
        raise_is_least(n as nat, d as nat);
        half_even_is_near((n * scale) as nat, d as nat);
        rounded_is_close((ratio * width) as nat);
        near_share(part, whole, n, d, scale, ratio, product, share, width as int);
    }
}

proof fn near_share(part: int, whole: int, n: int, d: int, scale: int, ratio: int, product: int, share: int, width: int)
    requires
        0 < part <= whole,
        0 < n <= d,
        0x20_0000_0000_0000 * part <= 0x20_0000_0000_0000 * n + part,
        0x20_0000_0000_0000 * n <= 0x20_0000_0000_0000 * part + part,
        0x20_0000_0000_0000 * whole <= 0x20_0000_0000_0000 * d + whole,
        0x20_0000_0000_0000 * d <= 0x20_0000_0000_0000 * whole + whole,
        0 <= width <= 100,
        n * scale >= 0x10_0000_0000_0000 * d,
        0 < scale,
        0 <= ratio <= scale,
        2 * (ratio * d) <= 2 * (n * scale) + d,
        2 * (n * scale) <= 2 * (ratio * d) + d,
        0x20_0000_0000_0000 * (ratio * width) <= 0x20_0000_0000_0000 * product + ratio * width,
        0x20_0000_0000_0000 * product <= 0x20_0000_0000_0000 * (ratio * width) + ratio * width,
        share == (2 * product + scale) / (2 * scale),
        0 <= product,
    ensures
        100 * (share * whole) <= 100 * (width * part) + 51 * whole,
        100 * (width * part) <= 100 * (share * whole) + 51 * whole,
{
    let m = 0x10_0000_0000_0000int;
    let all = scale * d * whole;
    assert(scale >= m) by (nonlinear_arith)
        requires
            n * scale >= m * d,
            n <= d,
            0 < n,
            0 < scale,
            m == 0x10_0000_0000_0000int,
    ;
    let a = share * scale - product;
    let b = product - ratio * width;
    let c = ratio * d - n * scale;
    let g = n * whole - part * d;
    assert(-scale <= 2 * a <= scale) by {
        vstd::arithmetic::div_mod::lemma_fundamental_div_mod(2 * product + scale, 2 * scale);
        assert((2 * scale) * share == 2 * (share * scale)) by (nonlinear_arith);
    }
    assert(-(scale * width) <= 2 * m * b <= scale * width) by {
        times(ratio, scale, width);
    }
    assert(-d <= 2 * c <= d);
    assert(-(2 * (d * whole)) <= m * g <= 2 * (d * whole)) by {
        assert(g == (n - part) * whole + part * (whole - d)) by (nonlinear_arith)
            requires
                g == n * whole - part * d,
        ;
        let x = (n - part) * whole;
        let y = part * (whole - d);
        assert(-(part * whole) <= 2 * m * x <= part * whole) by (nonlinear_arith)
            requires
                x == (n - part) * whole,
                -part <= 2 * m * (n - part) <= part,
                0 < whole,
        ;
        assert(-(part * whole) <= 2 * m * y <= part * whole) by (nonlinear_arith)
            requires
                y == part * (whole - d),
                -whole <= 2 * m * (whole - d) <= whole,
                0 < part,
        ;
        assert(part * whole <= 2 * (d * whole)) by (nonlinear_arith)
            requires
                part <= whole,
                whole <= 2 * d,
                0 < whole,
        ;
    }
    let error = share * whole - width * part;
    let shown = (share * whole) * (scale * d);
    let rounded_part = product * (d * whole);
    let ratio_part = (ratio * width) * (d * whole);
    let fraction = (width * whole) * (n * scale);
    let wanted = (width * part) * (scale * d);
    assert(a * (d * whole) == shown - rounded_part) by {
        assert((share * scale - product) * (d * whole) == (share * scale) * (d * whole) - product * (d * whole)) by (nonlinear_arith);
        assert((share * scale) * (d * whole) == (share * whole) * (scale * d)) by (nonlinear_arith);
    }
    assert(b * (d * whole) == rounded_part - ratio_part) by {
        assert((product - ratio * width) * (d * whole) == product * (d * whole) - (ratio * width) * (d * whole)) by (nonlinear_arith);
    }
    assert((width * whole) * c == ratio_part - fraction) by {
        assert((width * whole) * (ratio * d - n * scale) == (width * whole) * (ratio * d) - (width * whole) * (n * scale)) by (nonlinear_arith);
        assert((width * whole) * (ratio * d) == (ratio * width) * (d * whole)) by (nonlinear_arith);
    }
    assert((width * scale) * g == fraction - wanted) by {
        assert((width * scale) * (n * whole - part * d) == (width * scale) * (n * whole) - (width * scale) * (part * d)) by (nonlinear_arith);
        assert((width * scale) * (n * whole) == (width * whole) * (n * scale)) by (nonlinear_arith);
        assert((width * scale) * (part * d) == (width * part) * (scale * d)) by (nonlinear_arith);
    }
    assert(error * (scale * d) == shown - wanted) by {
        assert((share * whole - width * part) * (scale * d) == (share * whole) * (scale * d) - (width * part) * (scale * d)) by (nonlinear_arith);
    }
    assert(all == scale * (d * whole)) by (nonlinear_arith)
        requires
            all == scale * d * whole,
    ;
    let dw = d * whole;
    assert(dw > 0) by (nonlinear_arith)
        requires
            dw == d * whole,
            d > 0,
            whole > 0,
    ;
    let ta = a * dw;
    let tb = b * dw;
    let tc = (width * whole) * c;
    let tg = (width * scale) * g;
    assert(-all <= 2 * ta <= all) by (nonlinear_arith)
        requires
            ta == a * dw,
            all == scale * dw,
            -scale <= 2 * a <= scale,
            dw > 0,
    ;
    assert(-(100 * all) <= 2 * m * tb <= 100 * all) by (nonlinear_arith)
        requires
            tb == b * dw,
            all == scale * dw,
            -(scale * width) <= 2 * m * b <= scale * width,
            0 <= width <= 100,
            scale > 0,
            dw > 0,
    ;
    assert(-(100 * dw) <= 2 * tc <= 100 * dw) by (nonlinear_arith)
        requires
            tc == (width * whole) * c,
            dw == d * whole,
            -d <= 2 * c <= d,
            0 <= width <= 100,
            d > 0,
            whole > 0,
    ;
    assert(m * dw <= all) by (nonlinear_arith)
        requires
            all == scale * dw,
            scale >= m,
            dw > 0,
    ;
    assert(-(200 * all) <= m * tg <= 200 * all) by (nonlinear_arith)
        requires
            tg == (width * scale) * g,
            all == scale * dw,
            -(2 * dw) <= m * g <= 2 * dw,
            0 <= width <= 100,
            scale > 0,
            dw > 0,
    ;
    let sum = ta + tb + tc + tg;
    assert(-(51 * all) <= 100 * sum <= 51 * all);
    assert(all == (scale * d) * whole);
    let sd = scale * d;
    assert(sd > 0) by (nonlinear_arith)
        requires
            sd == scale * d,
            scale > 0,
            d > 0,
    ;
    assert(-(51 * whole) <= 100 * error <= 51 * whole) by (nonlinear_arith)
        requires
            error * sd == sum,
            all == sd * whole,
            -(51 * all) <= 100 * sum <= 51 * all,
            sd > 0,
    ;
}

fn half_even_of(n: u128, d: u128) -> (q: u128)
    requires
        0 < d,
        d < 0x8000_0000_0000_0000_0000_0000_0000_0000,
        n < 0x8000_0000_0000_0000_0000_0000_0000_0000,
    ensures
        q == half_even(n as nat, d as nat),
{
    let floor: u128 = n / d;
    let rest: u128 = n % d;
    proof {
        vstd::arithmetic::div_mod::lemma_div_is_ordered_by_denominator(n as int, 1, d as int);
    }
    if 2 * rest > d || (2 * rest == d && floor % 2 == 1) { floor + 1 } else { floor }
}

fn round_bits(n: u128) -> (r: u128)
    requires
        n <= 0x1_0000_0000_0000_0000,
    ensures
        r == rounded(n as nat),
        r <= 0x2_0000_0000_0000_0000,
{
    let mut unit: u128 = 1;
    let mut rest: u128 = n;
    while rest >= 0x20_0000_0000_0000
        invariant
            n <= 0x1_0000_0000_0000_0000,
            last_bit(n as nat) == unit * last_bit(rest as nat),
            unit <= 0x1_0000_0000_0000_0000,
            unit * rest <= n,
        decreases rest,
    {
        assert((2 * unit) * last_bit((rest / 2) as nat) == unit * (2 * last_bit((rest / 2) as nat))) by (nonlinear_arith);
        assert((2 * unit) * (rest / 2) <= unit * rest) by (nonlinear_arith)
            requires
                2 * (rest / 2) <= rest,
        ;
        assert(unit <= unit * rest) by (nonlinear_arith)
            requires
                rest >= 1,
        ;
        assert(2 * unit <= unit * rest) by (nonlinear_arith)
            requires
                rest >= 2,
        ;
        unit = 2 * unit;
        rest = rest / 2;
    }
    proof {
        last_bit_is_last(n as nat);
        half_even_is_near(n as nat, unit as nat);
        rounded_is_near(n as nat);
    }
    let whole: u128 = half_even_of(n, unit);
    assert(last_bit(n as nat) == unit) by {
        assert(last_bit(rest as nat) == 1);
        assert(unit * 1 == unit);
    }
    assert(whole * unit == rounded(n as nat));
    whole * unit
}

fn share(n: u128, d: u128, width: u128) -> (part: u128)
    requires
        n <= d,
        0 < d <= 0x2_0000_0000_0000_0000,
        width <= 100,
    ensures
        part == share_of(n as nat, d as nat, width as nat),
        part <= width,
{
    let mut raised: u128 = n;
    let mut scale: u128 = 1;
    assert(n * 1 == n);
    assert(1 * raise(n as nat, d as nat) == raise(n as nat, d as nat));
    proof {
        raise_is_least(n as nat, d as nat);
    }
    while raised != 0 && raised < 0x10_0000_0000_0000 * d
        invariant
            0 < d <= 0x2_0000_0000_0000_0000,
            n > 0 || raised == 0,
            raised == n * scale,
            scale >= 1,
            raised < 0x20_0000_0000_0000 * d,
            raise(n as nat, d as nat) == scale * raise(raised as nat, d as nat),
        decreases 0x20_0000_0000_0000 * d - raised,
    {
        let ghost rest = raise((2 * raised) as nat, d as nat);
        assert(scale * (2 * rest) == (2 * scale) * rest) by (nonlinear_arith);
        assert(n * (2 * scale) == 2 * (n * scale)) by (nonlinear_arith);
        assert(scale <= raised) by (nonlinear_arith)
            requires
                raised == n * scale,
                n >= 1,
        ;
        raised = 2 * raised;
        scale = 2 * scale;
    }
    assert(scale * 1 == scale);
    assert(scale == raise(n as nat, d as nat));
    proof {
        share_is_within(n as nat, d as nat, width as nat);
        if n > 0 {
            assert(scale <= raised) by (nonlinear_arith)
                requires
                    raised == n * scale,
                    n >= 1,
            ;
        }
    }
    let ratio: u128 = half_even_of(raised, d);
    assert(ratio * width <= 0x1_0000_0000_0000_0000) by (nonlinear_arith)
        requires
            ratio <= 0x20_0000_0000_0000,
            width <= 100,
    ;
    let product: u128 = round_bits(ratio * width);
    (2 * product + scale) / (2 * scale)
}

fn progress_of(completed: u64, total: u64, width: u128) -> (part: u128)
    requires
        width <= 100,
    ensures
        part == progress(completed as nat, total as nat, width as nat),
        part <= width,
{
    let whole: u64 = if total == 0 { 1 } else { total };
    let part: u64 = if completed < whole { completed } else { whole };
    proof {
        rounded_keeps_order(part as nat, whole as nat);
        rounded_is_near(whole as nat);
    }
    let n: u128 = round_bits(part as u128);
    let d: u128 = round_bits(whole as u128);
    share(n, d, width)
}

/// A bar with some signs of one kind before those of another.
pub open spec fn bar(filled: nat) -> Seq<char> {
    seq!['['] + Seq::new(filled, |i: int| '#') + Seq::new((DEFAULT_PROGRESS_WIDTH - filled) as nat, |i: int| '-') + seq![']']
}

/// A bar that shows how much of a total is completed.
pub fn progress_bar_u64(completed: u64, total: u64) -> (text: String)
    ensures
        text@ == bar(progress(completed as nat, total as nat, DEFAULT_PROGRESS_WIDTH as nat)),
{
    let filled: u128 = progress_of(completed, total, DEFAULT_PROGRESS_WIDTH as u128);
    let mut text: String = "".to_owned();
    proof {
        reveal_strlit("");
    }
    push_char(&mut text, '[');
    let mut i: u128 = 0;
    assert(text@ =~= seq!['['] + Seq::new(0, |k: int| '#') + Seq::new(0, |k: int| '-'));
    while i < DEFAULT_PROGRESS_WIDTH as u128
        invariant
            i <= DEFAULT_PROGRESS_WIDTH,
            filled <= DEFAULT_PROGRESS_WIDTH,
            text@ == seq!['['] + Seq::new((if i < filled { i } else { filled }) as nat, |k: int| '#') + Seq::new((if i < filled { 0 } else { i - filled }) as nat, |k: int| '-'),
        decreases DEFAULT_PROGRESS_WIDTH - i,
    {
        push_char(&mut text, if i < filled { '#' } else { '-' });
        i = i + 1;
        assert(text@ =~= seq!['['] + Seq::new((if i < filled { i } else { filled }) as nat, |k: int| '#') + Seq::new((if i < filled { 0 } else { i - filled }) as nat, |k: int| '-'));
    }
    push_char(&mut text, ']');
    assert(text@ =~= bar(filled as nat));
    text
}

/// A bar that shows how much of a total is completed.
pub fn progress_bar(completed: usize, total: usize) -> (text: String)
    ensures
        text@ == bar(progress(completed as nat, total as nat, DEFAULT_PROGRESS_WIDTH as nat)),
{
    progress_bar_u64(completed as u64, total as u64)
}

/// How much of a total is completed, in percent.
pub fn progress_percent_u64(completed: u64, total: u64) -> (percent: u8)
    ensures
        percent == progress(completed as nat, total as nat, 100),
{
    progress_of(completed, total, 100) as u8
}

/// How much of a total is completed, in percent.
pub fn progress_percent(completed: usize, total: usize) -> (percent: u8)
    ensures
        percent == progress(completed as nat, total as nat, 100),
{
    progress_percent_u64(completed as u64, total as u64)
}

} // verus!
