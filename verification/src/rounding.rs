//! Rounding of exact magnitudes to the binary64 grid.
//!
//! A non-negative binary64 number is addressed by its *code*: the exponent and
//! fraction fields read as one integer. Codes `0..INFINITY_CODE` are the finite
//! numbers in ascending order, and `INFINITY_CODE` stands for everything that
//! is too large. Magnitudes are counted in units of the smallest positive
//! number, two to the power -1074, so that every finite number is an integer.

use vstd::arithmetic::div_mod::*;
use vstd::arithmetic::mul::*;
use vstd::arithmetic::power2::*;
use vstd::prelude::*;

verus! {

/// The number of codes that share one exponent, `0x10_0000_0000_0000`: two to
/// the power 52.
pub const BINADE: u64 = 0x10_0000_0000_0000;

/// The code of positive infinity: every exponent bit set, fraction zero.
pub const INFINITY_CODE: u64 = 0x7FF0_0000_0000_0000;

/// The magnitude that a code stands for, in units of two to the power -1074.
/// `INFINITY_CODE` counts as the first power of two past the finite range.
pub open spec fn magnitude(code: nat) -> nat {
    let exponent = code / 0x10_0000_0000_0000;
    let fraction = code % 0x10_0000_0000_0000;
    if exponent == 0 {
        fraction
    } else {
        (0x10_0000_0000_0000 + fraction) * pow2((exponent - 1) as nat)
    }
}

/// `x / d` rounded to the nearest integer, a tie going to the even one.
pub open spec fn half_even(x: nat, d: nat) -> nat {
    let q = x / d;
    let r = x % d;
    if 2 * r < d || (2 * r == d && q % 2 == 0) {
        q
    } else {
        q + 1
    }
}

/// The code nearest to `num / d` on a grid without an upper end, for a grid
/// that starts at the `steps`-th doubling of the spacing.
///
/// The spacing doubles until at most 53 significant bits are left.
pub open spec fn unbounded_code(num: nat, d: nat, steps: nat) -> nat
    decreases num - d,
{
    if d == 0 || num < 0x20_0000_0000_0000 * d {
        steps * 0x10_0000_0000_0000 + half_even(num, d)
    } else {
        unbounded_code(num, 2 * d, steps + 1)
    }
}

/// The code of the magnitude `num / d` rounded to nearest, ties to even.
pub open spec fn round_code(num: nat, d: nat) -> nat {
    let code = unbounded_code(num, d, 0);
    if code < INFINITY_CODE {
        code
    } else {
        INFINITY_CODE as nat
    }
}

/// How far the magnitude of a code lies from `num / d`, times `d`.
pub open spec fn distance(code: nat, num: nat, d: nat) -> int {
    let gap = magnitude(code) * d - num;
    if gap < 0 {
        -gap
    } else {
        gap
    }
}

proof fn lemma_half_even_scale(x: nat, d: nat, c: nat)
    requires
        d > 0,
        c > 0,
    ensures
        half_even(c * x, c * d) == half_even(x, d),
{
    lemma_truncate_middle(x as int, c as int, d as int);
    lemma_div_multiples_vanish_quotient(c as int, x as int, d as int);
    let r = x % d;
    assert((c * x) % (c * d) == c * r);
    assert(2 * (c * r) < c * d <==> 2 * r < d) by (nonlinear_arith)
        requires
            c > 0,
    ;
    assert(2 * (c * r) == c * d <==> 2 * r == d) by (nonlinear_arith)
        requires
            c > 0,
    ;
}

proof fn lemma_half_even_bounds(x: nat, d: nat)
    requires
        d > 0,
    ensures
        x / d <= half_even(x, d) <= x / d + 1,
        2 * (half_even(x, d) * d - x) <= d,
        2 * (x - half_even(x, d) * d) <= d,
        half_even(x, d) == x / d ==> half_even(x, d) * d <= x,
        half_even(x, d) == x / d + 1 ==> half_even(x, d) * d > x,
{
    let q = x / d;
    let r = x % d;
    lemma_fundamental_div_mod(x as int, d as int);
    lemma_mod_bound(x as int, d as int);
    assert(q * d == d * q) by (nonlinear_arith);
    assert((q + 1) * d == q * d + d) by (nonlinear_arith);
}

/// Below the first doubling of a grid that starts at spacing `d`, or between
/// two doublings, the code is read off at the spacing in force there.
proof fn lemma_unbounded_code_at(num: nat, d: nat, steps: nat, j: nat)
    requires
        d > 0,
        num < 0x20_0000_0000_0000 * (d * pow2(j)),
        j > 0 ==> num >= 0x10_0000_0000_0000 * (d * pow2(j)),
    ensures
        unbounded_code(num, d, steps) == (steps + j) * 0x10_0000_0000_0000 + half_even(
            num,
            d * pow2(j),
        ),
    decreases j,
{
    if j == 0 {
        lemma2_to64();
        assert(d * 1 == d);
    } else {
        let k = (j - 1) as nat;
        lemma_pow2_unfold(j);
        lemma_pow2_pos(k);
        let p = pow2(k);
        assert(d * (2 * p) == (2 * d) * p) by (nonlinear_arith);
        assert(d * (2 * p) >= 2 * d) by (nonlinear_arith)
            requires
                p >= 1,
        ;
        lemma_unbounded_code_at(num, 2 * d, steps + 1, k);
    }
}

/// The code of `num * 2^j / d`, where the spacing has to double `j` times.
pub proof fn lemma_round_code_at(num: nat, d: nat, j: nat)
    requires
        d > 0,
        0x10_0000_0000_0000 * d <= num < 0x20_0000_0000_0000 * d,
        j < 2046,
    ensures
        round_code(num * pow2(j), d) == j * 0x10_0000_0000_0000 + half_even(num, d),
{
    let p = pow2(j);
    lemma_pow2_pos(j);
    assert(num * p < 0x20_0000_0000_0000 * (d * p)) by (nonlinear_arith)
        requires
            num < 0x20_0000_0000_0000 * d,
            p > 0,
    ;
    assert(num * p >= 0x10_0000_0000_0000 * (d * p)) by (nonlinear_arith)
        requires
            num >= 0x10_0000_0000_0000 * d,
    ;
    lemma_unbounded_code_at(num * p, d, 0, j);
    assert(p * num == num * p && p * d == d * p) by (nonlinear_arith);
    lemma_half_even_scale(num, d, p);
    lemma_half_even_bounds(num, d);
    assert(num / d < 0x20_0000_0000_0000) by {
        lemma_fundamental_div_mod(num as int, d as int);
        lemma_mod_bound(num as int, d as int);
        let q = num / d;
        assert(q < 0x20_0000_0000_0000) by (nonlinear_arith)
            requires
                d * q <= num,
                num < 0x20_0000_0000_0000 * d,
                d > 0,
        ;
    }
}

proof fn lemma_unbounded_code_scale(num: nat, d: nat, steps: nat, c: nat)
    requires
        d > 0,
        c > 0,
    ensures
        unbounded_code(c * num, c * d, steps) == unbounded_code(num, d, steps),
    decreases num - d,
{
    assert(c * d > 0) by (nonlinear_arith)
        requires
            c > 0,
            d > 0,
    ;
    assert(c * num < 0x20_0000_0000_0000 * (c * d) <==> num < 0x20_0000_0000_0000 * d)
        by (nonlinear_arith)
        requires
            c > 0,
    ;
    if num < 0x20_0000_0000_0000 * d {
        lemma_half_even_scale(num, d, c);
    } else {
        assert(2 * (c * d) == c * (2 * d)) by (nonlinear_arith);
        lemma_unbounded_code_scale(num, 2 * d, steps + 1, c);
    }
}

/// Multiplying numerator and denominator by the same factor leaves the code.
pub proof fn lemma_round_code_scale(num: nat, d: nat, c: nat)
    requires
        d > 0,
        c > 0,
    ensures
        round_code(c * num, c * d) == round_code(num, d),
{
    lemma_unbounded_code_scale(num, d, 0, c);
}

/// Strictly between two neighbouring multiples of `c`, rounding to a spacing
/// that is an even number of `c`s does not depend on the position.
proof fn lemma_half_even_between(y: nat, t: nat, c: nat, h: nat)
    requires
        0 < t < c,
        h > 0,
    ensures
        half_even(y * c + t, (2 * h) * c) == half_even(2 * y + 1, 2 * (2 * h)),
        y * c + t < 0x20_0000_0000_0000 * ((2 * h) * c) <==> 2 * y + 1 < 0x20_0000_0000_0000 * (2
            * (2 * h)),
{
    let d = 2 * h;
    let q = y / d;
    let r = y % d;
    lemma_fundamental_div_mod(y as int, d as int);
    lemma_mod_bound(y as int, d as int);
    // quotient and remainder of the exact value
    assert(y * c + t == q * (d * c) + (r * c + t)) by (nonlinear_arith)
        requires
            y == d * q + r,
    ;
    assert(r * c + t < d * c) by (nonlinear_arith)
        requires
            r + 1 <= d,
            t < c,
    ;
    assert(d * c > 0) by (nonlinear_arith)
        requires
            d > 0,
            c > 0,
    ;
    lemma_fundamental_div_mod_converse((y * c + t) as int, (d * c) as int, q as int, (r * c + t) as int);
    // and of the midpoint
    assert(2 * y + 1 == q * (2 * d) + (2 * r + 1)) by (nonlinear_arith)
        requires
            y == d * q + r,
    ;
    lemma_fundamental_div_mod_converse((2 * y + 1) as int, (2 * d) as int, q as int, (2 * r + 1) as int);
    if r >= h {
        assert(2 * (r * c + t) > d * c) by (nonlinear_arith)
            requires
                r >= h,
                d == 2 * h,
                t > 0,
                c > 0,
        ;
    } else {
        assert(2 * (r * c + t) < d * c) by (nonlinear_arith)
            requires
                r + 1 <= h,
                d == 2 * h,
                t < c,
        ;
    }
    let top = 0x20_0000_0000_0000 * d;
    assert(0x20_0000_0000_0000 * (d * c) == top * c) by (nonlinear_arith)
        requires
            top == 0x20_0000_0000_0000 * d,
    ;
    if y < top {
        assert(y * c + t < top * c) by (nonlinear_arith)
            requires
                y + 1 <= top,
                t < c,
        ;
    } else {
        assert(y * c + t >= top * c) by (nonlinear_arith)
            requires
                y >= top,
        ;
    }
}

proof fn lemma_unbounded_code_between(y: nat, t: nat, n: nat, i: nat, steps: nat)
    requires
        n > 0,
        0 < t < pow2(n),
        y >= 0x40_0000_0000_0000,
    ensures
        unbounded_code(y * pow2(n) + t, pow2(i), steps) == unbounded_code(
            (2 * y + 1) * pow2((n - 1) as nat),
            pow2(i),
            steps,
        ),
    decreases y * pow2(n) + t - pow2(i),
{
    let c = pow2(n);
    let b = pow2((n - 1) as nat);
    let d = pow2(i);
    let num = y * c + t;
    let mid = (2 * y + 1) * b;
    lemma_pow2_pos(i);
    lemma_pow2_pos((n - 1) as nat);
    lemma_pow2_unfold(n);
    lemma_pow2_unfold(i + 1);
    assert(mid == y * c + b) by (nonlinear_arith)
        requires
            mid == (2 * y + 1) * b,
            c == 2 * b,
    ;
    if i <= n + 1 {
        lemma_pow2_unfold(n + 1);
        if i < n + 1 {
            lemma_pow2_strictly_increases(i, n + 1);
        }
        assert(d <= 2 * c);
        assert(y * c >= 0x40_0000_0000_0000 * c) by (nonlinear_arith)
            requires
                y >= 0x40_0000_0000_0000,
        ;
        lemma_unbounded_code_between(y, t, n, i + 1, steps + 1);
    } else {
        let k = (i - n - 1) as nat;
        let h = pow2(k);
        lemma_pow2_pos(k);
        lemma_pow2_adds(n, k + 1);
        lemma_pow2_unfold(k + 1);
        assert(d == (2 * h) * c) by (nonlinear_arith)
            requires
                d == c * (2 * h),
        ;
        lemma_half_even_between(y, t, c, h);
        assert(d == b * (2 * (2 * h))) by (nonlinear_arith)
            requires
                d == (2 * h) * c,
                c == 2 * b,
        ;
        assert(mid == b * (2 * y + 1)) by (nonlinear_arith)
            requires
                mid == (2 * y + 1) * b,
        ;
        lemma_half_even_scale(2 * y + 1, 2 * (2 * h), b);
        assert(mid < 0x20_0000_0000_0000 * d <==> 2 * y + 1 < 0x20_0000_0000_0000 * (2 * (2 * h)))
            by (nonlinear_arith)
            requires
                mid == b * (2 * y + 1),
                d == b * (2 * (2 * h)),
                b > 0,
        ;
        if num >= 0x20_0000_0000_0000 * d {
            lemma_unbounded_code_between(y, t, n, i + 1, steps + 1);
        }
    }
}

/// A remainder that is too small to reach the rounding position may be replaced
/// by half a unit.
pub proof fn lemma_round_code_between(y: nat, t: nat, n: nat)
    requires
        n > 0,
        0 < t < pow2(n),
        y >= 0x40_0000_0000_0000,
    ensures
        round_code(y * pow2(n) + t, 1) == round_code((2 * y + 1) * pow2((n - 1) as nat), 1),
{
    lemma2_to64();
    lemma_unbounded_code_between(y, t, n, 0, 0);
}

/// Within the range that one spacing serves, codes count its multiples.
proof fn lemma_magnitude_in_binade(j: nat, q: nat)
    requires
        q <= 0x20_0000_0000_0000,
        j > 0 ==> q >= 0x10_0000_0000_0000,
    ensures
        magnitude(j * 0x10_0000_0000_0000 + q) == q * pow2(j),
{
    let code = j * 0x10_0000_0000_0000 + q;
    lemma2_to64();
    lemma_pow2_unfold(j + 1);
    if q < 0x10_0000_0000_0000 {
        assert(code == q);
    } else if q < 0x20_0000_0000_0000 {
        assert(code / 0x10_0000_0000_0000 == j + 1);
        assert(code % 0x10_0000_0000_0000 == q - 0x10_0000_0000_0000);
    } else {
        assert(code / 0x10_0000_0000_0000 == j + 2);
        assert(code % 0x10_0000_0000_0000 == 0);
        assert(0x10_0000_0000_0000 * pow2(j + 1) == 0x20_0000_0000_0000 * pow2(j));
    }
}

proof fn lemma_magnitude_step(code: nat)
    ensures
        magnitude(code) < magnitude(code + 1),
{
    let e = code / 0x10_0000_0000_0000;
    let f = code % 0x10_0000_0000_0000;
    if e == 0 {
        lemma_magnitude_in_binade(0, code);
        lemma_magnitude_in_binade(0, code + 1);
        lemma2_to64();
    } else {
        let j = (e - 1) as nat;
        let q = 0x10_0000_0000_0000 + f;
        lemma_magnitude_in_binade(j, q);
        lemma_magnitude_in_binade(j, q + 1);
        lemma_pow2_pos(j);
        assert(q * pow2(j) < (q + 1) * pow2(j)) by (nonlinear_arith)
            requires
                pow2(j) > 0,
        ;
    }
}

/// A larger code stands for a larger magnitude.
pub proof fn lemma_magnitude_increases(lo: nat, hi: nat)
    requires
        lo < hi,
    ensures
        magnitude(lo) < magnitude(hi),
    decreases hi - lo,
{
    if lo + 1 < hi {
        lemma_magnitude_increases(lo, (hi - 1) as nat);
    }
    lemma_magnitude_step((hi - 1) as nat);
}

/// A magnitude on the grid is its own rounding, whatever the denominator.
pub proof fn lemma_round_code_exact(code: nat, d: nat)
    requires
        code <= INFINITY_CODE,
        d > 0,
    ensures
        round_code(d * magnitude(code), d) == code,
{
    let num = magnitude(code);
    let e = code / 0x10_0000_0000_0000;
    let f = code % 0x10_0000_0000_0000;
    lemma2_to64();
    if e == 0 {
        assert(half_even(num, 1) == num);
        assert(unbounded_code(num, 1, 0) == code);
    } else {
        let j = (e - 1) as nat;
        let p = pow2(j);
        let q = 0x10_0000_0000_0000 + f;
        lemma_pow2_pos(j);
        assert(1 * p == p);
        assert(q * p < 0x20_0000_0000_0000 * p) by (nonlinear_arith)
            requires
                q < 0x20_0000_0000_0000,
                p > 0,
        ;
        assert(q * p >= 0x10_0000_0000_0000 * p) by (nonlinear_arith)
            requires
                q >= 0x10_0000_0000_0000,
        ;
        lemma_unbounded_code_at(num, 1, 0, j);
        lemma_fundamental_div_mod_converse((q * p) as int, p as int, q as int, 0);
        assert(unbounded_code(num, 1, 0) == code);
    }
    lemma_round_code_scale(num, 1, d);
    assert(d * 1 == d);
}

proof fn lemma_unbounded_code_lower(num: nat, d: nat, steps: nat)
    requires
        d > 0,
        num >= 0x10_0000_0000_0000 * d,
    ensures
        unbounded_code(num, d, steps) >= (steps + 1) * 0x10_0000_0000_0000,
    decreases num - d,
{
    if num < 0x20_0000_0000_0000 * d {
        lemma_div_is_ordered((0x10_0000_0000_0000 * d) as int, num as int, d as int);
        lemma_div_multiples_vanish(0x10_0000_0000_0000, d as int);
    } else {
        lemma_unbounded_code_lower(num, 2 * d, steps + 1);
    }
}

proof fn lemma_half_even_monotone(a: nat, b: nat, d: nat)
    requires
        d > 0,
        a <= b,
    ensures
        half_even(a, d) <= half_even(b, d),
{
    lemma_div_is_ordered(a as int, b as int, d as int);
    if a / d == b / d {
        lemma_fundamental_div_mod(a as int, d as int);
        lemma_fundamental_div_mod(b as int, d as int);
        assert(a % d <= b % d);
    }
}

proof fn lemma_unbounded_code_monotone(a: nat, b: nat, d: nat, steps: nat)
    requires
        d > 0,
        a <= b,
    ensures
        unbounded_code(a, d, steps) <= unbounded_code(b, d, steps),
    decreases b - d,
{
    if b < 0x20_0000_0000_0000 * d {
        lemma_half_even_monotone(a, b, d);
    } else if a < 0x20_0000_0000_0000 * d {
        lemma_half_even_bounds(a, d);
        lemma_div_is_ordered(a as int, (0x20_0000_0000_0000 * d - 1) as int, d as int);
        assert((0x20_0000_0000_0000 * d - 1) / (d as int) < 0x20_0000_0000_0000) by {
            lemma_div_by_multiple_is_strongly_ordered(
                (0x20_0000_0000_0000 * d - 1) as int,
                (0x20_0000_0000_0000 * d) as int,
                0x20_0000_0000_0000,
                d as int,
            );
            lemma_div_multiples_vanish(0x20_0000_0000_0000, d as int);
        }
        lemma_unbounded_code_lower(b, 2 * d, steps + 1);
    } else {
        lemma_unbounded_code_monotone(a, b, 2 * d, steps + 1);
    }
}

/// Rounding keeps the order of magnitudes.
pub proof fn lemma_round_code_monotone(a: nat, b: nat, d: nat)
    requires
        d > 0,
        a <= b,
    ensures
        round_code(a, d) <= round_code(b, d),
{
    lemma_unbounded_code_monotone(a, b, d, 0);
}

proof fn lemma_magnitude_monotone(lo: nat, hi: nat, d: nat)
    requires
        lo <= hi,
    ensures
        magnitude(lo) * d <= magnitude(hi) * d,
{
    if lo < hi {
        lemma_magnitude_increases(lo, hi);
    }
    assert(magnitude(lo) * d <= magnitude(hi) * d) by (nonlinear_arith)
        requires
            magnitude(lo) <= magnitude(hi),
    ;
}

proof fn lemma_unbounded_code_nearest(num: nat, d: nat, steps: nat, other: nat)
    requires
        d > 0,
        steps > 0 ==> num >= 0x10_0000_0000_0000 * (d * pow2(steps)),
    ensures
        ({
            let code = unbounded_code(num, d * pow2(steps), steps);
            &&& distance(code, num, d) <= distance(other, num, d)
            &&& distance(code, num, d) == distance(other, num, d) && other != code ==> code % 2 == 0
        }),
    decreases num - d * pow2(steps),
{
    let s = d * pow2(steps);
    lemma_pow2_pos(steps);
    lemma_pow2_unfold(steps + 1);
    assert(s > 0) by (nonlinear_arith)
        requires
            s == d * pow2(steps),
            d > 0,
            pow2(steps) > 0,
    ;
    assert(d * pow2(steps + 1) == 2 * s) by (nonlinear_arith)
        requires
            s == d * pow2(steps),
            pow2(steps + 1) == 2 * pow2(steps),
    ;
    if num < 0x20_0000_0000_0000 * s {
        let q = half_even(num, s);
        let code = steps * 0x10_0000_0000_0000 + q;
        lemma_half_even_bounds(num, s);
        lemma_fundamental_div_mod(num as int, s as int);
        lemma_mod_bound(num as int, s as int);
        let floor = num / s;
        assert(floor < 0x20_0000_0000_0000) by (nonlinear_arith)
            requires
                num < 0x20_0000_0000_0000 * s,
                num >= s * floor,
                s > 0,
        ;
        if steps > 0 {
            assert(floor >= 0x10_0000_0000_0000) by (nonlinear_arith)
                requires
                    num >= 0x10_0000_0000_0000 * s,
                    num < s * floor + s,
                    s > 0,
            ;
        }
        lemma_magnitude_in_binade(steps, q);
        assert(magnitude(code) * d == q * s) by (nonlinear_arith)
            requires
                magnitude(code) == q * pow2(steps),
                s == d * pow2(steps),
        ;
        if other > code && q == floor {
            lemma_magnitude_in_binade(steps, q + 1);
            lemma_magnitude_monotone(code + 1, other, d);
            assert(magnitude(code + 1) * d == q * s + s) by (nonlinear_arith)
                requires
                    magnitude(code + 1) == (q + 1) * pow2(steps),
                    s == d * pow2(steps),
            ;
        } else if other < code && q == floor + 1 {
            lemma_magnitude_in_binade(steps, floor);
            lemma_magnitude_monotone(other, (code - 1) as nat, d);
            assert(magnitude((code - 1) as nat) * d == q * s - s) by (nonlinear_arith)
                requires
                    magnitude((code - 1) as nat) == floor * pow2(steps),
                    s == d * pow2(steps),
                    q == floor + 1,
            ;
        } else if other > code {
            lemma_magnitude_increases(code, other);
            assert(magnitude(code) * d < magnitude(other) * d) by (nonlinear_arith)
                requires
                    magnitude(code) < magnitude(other),
                    d > 0,
            ;
        } else if other < code {
            lemma_magnitude_increases(other, code);
            assert(magnitude(other) * d < magnitude(code) * d) by (nonlinear_arith)
                requires
                    magnitude(other) < magnitude(code),
                    d > 0,
            ;
        }
        assert(s * floor == floor * s) by (nonlinear_arith);
        assert((floor + 1) * s == floor * s + s) by (nonlinear_arith);
    } else {
        lemma_unbounded_code_nearest(num, d, steps + 1, other);
    }
}

/// The rounded code is nearest: no code of the grid lies closer to the exact
/// magnitude, and where another lies equally close the chosen one is even.
pub proof fn lemma_round_code_nearest(num: nat, d: nat, other: nat)
    requires
        d > 0,
        other <= INFINITY_CODE,
    ensures
        round_code(num, d) <= INFINITY_CODE,
        distance(round_code(num, d), num, d) <= distance(other, num, d),
        distance(round_code(num, d), num, d) == distance(other, num, d) && other != round_code(
            num,
            d,
        ) ==> round_code(num, d) % 2 == 0,
{
    lemma2_to64();
    assert(d * 1 == d);
    let code = unbounded_code(num, d, 0);
    let top = INFINITY_CODE as nat;
    if code <= top {
        lemma_unbounded_code_nearest(num, d, 0, other);
    } else {
        let bound = d * magnitude(top);
        assert(num >= bound) by {
            if num < bound {
                lemma_unbounded_code_monotone(num, bound, d, 0);
                lemma_unbounded_code_top(d);
            }
        }
        assert(magnitude(top) * d == bound) by (nonlinear_arith)
            requires
                bound == d * magnitude(top),
        ;
        lemma_magnitude_monotone(other, top, d);
    }
}

proof fn lemma_unbounded_code_top(d: nat)
    requires
        d > 0,
    ensures
        unbounded_code(d * magnitude(INFINITY_CODE as nat), d, 0) == INFINITY_CODE,
{
    let num = magnitude(INFINITY_CODE as nat);
    let p = pow2(2046);
    lemma_pow2_pos(2046);
    assert(num == 0x10_0000_0000_0000 * p);
    assert(1 * p == p);
    lemma_unbounded_code_at(num, 1, 0, 2046);
    lemma_fundamental_div_mod_converse(num as int, p as int, 0x10_0000_0000_0000, 0);
    lemma_unbounded_code_scale(num, 1, 0, d);
    assert(d * 1 == d);
}

/// The code of `x` times two to the power `shift`, rounded.
pub open spec fn shifted_code(x: nat, shift: int) -> nat {
    if shift >= 0 {
        round_code(x * pow2(shift as nat), 1)
    } else {
        round_code(x, pow2((-shift) as nat))
    }
}

/// Two to the power `n`.
pub(crate) fn power_of_two(n: u32) -> (p: u128)
    requires
        n < 128,
    ensures
        p == pow2(n as nat),
{
    let mut p: u128 = 1;
    let mut i: u32 = 0;
    proof {
        lemma2_to64();
    }
    while i < n
        invariant
            i <= n < 128,
            p == pow2(i as nat),
        decreases n - i,
    {
        proof {
            lemma_pow2_unfold((i + 1) as nat);
            lemma_pow2_below_128((i + 1) as nat);
        }
        p = p * 2;
        i = i + 1;
    }
    p
}

/// Powers of two that fit.
pub(crate) proof fn lemma_pow2_below_128(n: nat)
    requires
        n < 128,
    ensures
        0 < pow2(n) <= u128::MAX,
{
    lemma2_to64();
    lemma_pow2_pos(n);
    lemma_pow2_adds(64, 64);
    lemma_pow2_strictly_increases(n, 128);
}

/// The number of binary digits of `x`.
fn bit_length(x: u128) -> (n: u32)
    requires
        0 < x < 0x100_0000_0000_0000_0000_0000_0000_0000,
    ensures
        1 <= n <= 120,
        pow2((n - 1) as nat) <= x < pow2(n as nat),
{
    let mut p: u128 = 1;
    let mut n: u32 = 0;
    proof {
        lemma2_to64();
        lemma_pow2_adds(64, 56);
        lemma2_to64_rest();
    }
    while p <= x
        invariant
            0 < x < 0x100_0000_0000_0000_0000_0000_0000_0000,
            pow2(120) == 0x100_0000_0000_0000_0000_0000_0000_0000,
            n <= 120,
            p == pow2(n as nat),
            n > 0 ==> pow2((n - 1) as nat) <= x,
            n == 0 ==> p == 1,
        decreases 120 - n,
    {
        proof {
            if n == 120 {
                assert(false);
            }
            lemma_pow2_unfold((n + 1) as nat);
        }
        p = p * 2;
        n = n + 1;
    }
    n
}

/// `x / d` to the nearest integer, ties to even.
fn divide_half_even(x: u128, d: u128) -> (q: u128)
    requires
        d > 0,
        x < 0x100_0000_0000_0000_0000_0000_0000_0000,
    ensures
        q == half_even(x as nat, d as nat),
{
    let q: u128 = x / d;
    let r: u128 = x % d;
    proof {
        lemma_div_is_ordered_by_denominator(x as int, 1, d as int);
        lemma_mod_bound(x as int, d as int);
        lemma_mod_decreases(x as nat, d as nat);
    }
    let rest: u128 = d - r;
    if r < rest || (r == rest && q % 2 == 0) {
        q
    } else {
        q + 1
    }
}

/// Rounds `x` times two to the power `shift` to its code.
pub(crate) fn round_shifted(x: u128, shift: i32) -> (code: u64)
    requires
        x < 0x100_0000_0000_0000_0000_0000_0000_0000,
        -2000 <= shift <= 3100,
    ensures
        code == shifted_code(x as nat, shift as int),
        code <= INFINITY_CODE,
{
    if x == 0 {
        proof {
            let d: nat = if shift >= 0 { 1 } else { pow2((-shift) as nat) };
            lemma_pow2_pos((-shift) as nat);
            lemma_round_code_exact(0, d);
            assert(magnitude(0) == 0);
            assert(0 * pow2(shift as nat) == 0);
        }
        return 0;
    }
    let length: i32 = bit_length(x) as i32;
    let excess: i32 = length + shift - 53;
    let steps: i32 = if excess > 0 { excess } else { 0 };
    let drop: i32 = steps - shift;
    let q: u128 = if drop <= 0 {
        proof {
            lemma_exact_shift(x as nat, length as nat, (-drop) as nat);
        }
        x * power_of_two((-drop) as u32)
    } else if drop < 128 {
        let p: u128 = power_of_two(drop as u32);
        proof {
            lemma_pow2_pos(drop as nat);
        }
        divide_half_even(x, p)
    } else {
        0
    };
    proof {
        lemma_round_shifted(x as nat, shift as int, length as nat, q as nat);
    }
    let code: u64 = steps as u64 * BINADE + q as u64;
    if code < INFINITY_CODE {
        code
    } else {
        INFINITY_CODE
    }
}

proof fn lemma_exact_shift(x: nat, length: nat, n: nat)
    requires
        x < pow2(length),
        length + n <= 53,
    ensures
        x * pow2(n) < 0x20_0000_0000_0000,
{
    lemma_pow2_pos(n);
    lemma_pow2_adds(length, n);
    lemma2_to64_rest();
    if length + n < 53 {
        lemma_pow2_strictly_increases(length + n, 53);
    }
    assert(x * pow2(n) < pow2(length) * pow2(n)) by (nonlinear_arith)
        requires
            x < pow2(length),
            pow2(n) > 0,
    ;
}

proof fn lemma_round_shifted(x: nat, shift: int, length: nat, q: nat)
    requires
        length > 0,
        pow2((length - 1) as nat) <= x < pow2(length),
        x < 0x100_0000_0000_0000_0000_0000_0000_0000,
        ({
            let excess = length + shift - 53;
            let steps = if excess > 0 { excess } else { 0 };
            let drop = steps - shift;
            if drop <= 0 {
                q == x * pow2((-drop) as nat)
            } else if drop < 128 {
                q == half_even(x, pow2(drop as nat))
            } else {
                q == 0
            }
        }),
    ensures
        ({
            let excess = length + shift - 53;
            let steps = if excess > 0 { excess } else { 0 };
            let code = steps * 0x10_0000_0000_0000 + q;
            &&& q <= 0x20_0000_0000_0000
            &&& shifted_code(x, shift) == if code < INFINITY_CODE {
                code
            } else {
                INFINITY_CODE as int
            }
        }),
{
    let excess = length + shift - 53;
    let j = (if excess > 0 { excess } else { 0 }) as nat;
    let drop = j - shift;
    let up = (if shift >= 0 { shift } else { 0 }) as nat;
    let down = (if shift >= 0 { 0 } else { -shift }) as nat;
    let num = x * pow2(up);
    let d = pow2(down);
    lemma2_to64();
    lemma2_to64_rest();
    lemma_pow2_pos(up);
    lemma_pow2_pos(down);
    lemma_pow2_pos(j);
    assert(x * 1 == x);
    assert(shifted_code(x, shift) == round_code(num, d));
    // the spacing in force is two to the power down + j
    lemma_pow2_adds(down, j);
    lemma_pow2_adds(53, down + j);
    lemma_pow2_adds(52, down + j);
    lemma_pow2_adds(length, up);
    lemma_pow2_adds((length - 1) as nat, up);
    assert(num < pow2(length + up)) by (nonlinear_arith)
        requires
            num == x * pow2(up),
            x < pow2(length),
            pow2(length + up) == pow2(length) * pow2(up),
            pow2(up) > 0,
    ;
    assert(num >= pow2((length - 1) as nat + up)) by (nonlinear_arith)
        requires
            num == x * pow2(up),
            x >= pow2((length - 1) as nat),
            pow2((length - 1) as nat + up) == pow2((length - 1) as nat) * pow2(up),
    ;
    if length + up < 53 + (down + j) {
        lemma_pow2_strictly_increases(length + up, 53 + (down + j));
    }
    assert(num < 0x20_0000_0000_0000 * (d * pow2(j)));
    if j > 0 {
        assert((length - 1) as nat + up == 52 + (down + j));
    }
    lemma_unbounded_code_at(num, d, 0, j);
    let s = pow2(down + j);
    lemma_half_even_bounds(num, s);
    assert(half_even(num, s) <= 0x20_0000_0000_0000) by {
        lemma_pow2_pos(down + j);
        lemma_fundamental_div_mod(num as int, s as int);
        lemma_mod_bound(num as int, s as int);
        let floor = num / s;
        assert(floor < 0x20_0000_0000_0000) by (nonlinear_arith)
            requires
                num < 0x20_0000_0000_0000 * s,
                num >= s * floor,
                s > 0,
        ;
    }
    assert(q == half_even(num, s)) by {
        if drop <= 0 {
            // shift >= j, so the value is a multiple of the spacing
            let n = (-drop) as nat;
            assert(down == 0);
            lemma_pow2_adds(n, j);
            assert(num == (x * pow2(n)) * s) by (nonlinear_arith)
                requires
                    num == x * pow2(up),
                    pow2(up) == pow2(n) * pow2(j),
                    s == pow2(j),
            ;
            lemma_fundamental_div_mod_converse(num as int, s as int, q as int, 0);
        } else {
            let n = drop as nat;
            lemma_pow2_pos(n);
            lemma_pow2_adds(up, n);
            assert(up + n == down + j);
            lemma_half_even_scale(x, pow2(n), pow2(up));
            assert(pow2(up) * x == num) by (nonlinear_arith)
                requires
                    num == x * pow2(up),
            ;
            assert(half_even(num, s) == half_even(x, pow2(n)));
            if n >= 128 {
                lemma_pow2_adds(64, 64);
                if n > 128 {
                    lemma_pow2_strictly_increases(128, n);
                }
                lemma_small_mod(x, pow2(n));
                lemma_basic_div(x as int, pow2(n) as int);
            }
        }
    }
}

} // verus!
