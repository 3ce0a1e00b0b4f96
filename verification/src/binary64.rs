//! Binary floating-point numbers of the 64-bit interchange format.
//!
//! The guard on fleet actions is stated over such numbers, infinities and
//! not-a-number included. [`Binary64`] holds one as its bit pattern and
//! computes on it with integers, so that every result is the exact one rounded
//! to nearest, ties to even.

use vstd::arithmetic::mul::*;
use vstd::arithmetic::power2::*;
use vstd::prelude::*;

use crate::rounding;
use crate::rounding::{BINADE, INFINITY_CODE};

verus! {

/// The sign bit.
pub const SIGN: u64 = 0x8000_0000_0000_0000;

/// A 64-bit binary floating-point number, held as its bit pattern: one sign
/// bit, eleven exponent bits, fifty-two fraction bits.
#[derive(Debug, Clone, Copy)]
pub struct Binary64 {
    pub bits: u64,
}

impl Binary64 {
    /// The number with the given sign and code.
    pub open spec fn of(negative: bool, code: nat) -> Binary64 {
        Binary64 {
            bits: if negative {
                (SIGN + code) as u64
            } else {
                code as u64
            },
        }
    }

    /// The not-a-number that operations answer with.
    pub open spec fn nan() -> Binary64 {
        Binary64 { bits: 0x7FF8_0000_0000_0000 }
    }

    pub open spec fn negative(self) -> bool {
        self.bits >= SIGN
    }

    /// Exponent and fraction read as one integer.
    pub open spec fn code(self) -> nat {
        if self.bits >= SIGN {
            (self.bits - SIGN) as nat
        } else {
            self.bits as nat
        }
    }

    pub open spec fn nan_spec(self) -> bool {
        self.code() > INFINITY_CODE
    }

    pub open spec fn infinite_spec(self) -> bool {
        self.code() == INFINITY_CODE
    }

    pub open spec fn finite_spec(self) -> bool {
        self.code() < INFINITY_CODE
    }

    /// The value in units of two to the power -1074. An infinity counts as the
    /// first power of two past the finite range, so that `value` orders all
    /// numbers.
    pub open spec fn value(self) -> int {
        if self.negative() {
            -(rounding::magnitude(self.code()) as int)
        } else {
            rounding::magnitude(self.code()) as int
        }
    }

    /// Numeric order. Nothing is ordered with not-a-number.
    pub open spec fn lt(self, other: Binary64) -> bool {
        !self.nan_spec() && !other.nan_spec() && self.value() < other.value()
    }

    /// Numeric order or equality. Nothing is ordered with not-a-number.
    pub open spec fn le(self, other: Binary64) -> bool {
        !self.nan_spec() && !other.nan_spec() && self.value() <= other.value()
    }

    /// The sum: exact, then rounded.
    pub open spec fn plus(self, other: Binary64) -> Binary64 {
        let exact = self.value() + other.value();
        if self.nan_spec() || other.nan_spec() {
            Binary64::nan()
        } else if self.infinite_spec() && other.infinite_spec() && self.negative()
            != other.negative() {
            Binary64::nan()
        } else if self.infinite_spec() {
            self
        } else if other.infinite_spec() {
            other
        } else if exact == 0 {
            Binary64::of(self.negative() && other.negative(), 0)
        } else if exact < 0 {
            Binary64::of(true, rounding::round_code((-exact) as nat, 1))
        } else {
            Binary64::of(false, rounding::round_code(exact as nat, 1))
        }
    }

    /// The product: exact, then rounded. A product of two values counts units
    /// of two to the power -2148, hence the denominator.
    pub open spec fn times(self, other: Binary64) -> Binary64 {
        let negative = self.negative() != other.negative();
        if self.nan_spec() || other.nan_spec() {
            Binary64::nan()
        } else if (self.infinite_spec() && other.code() == 0) || (other.infinite_spec()
            && self.code() == 0) {
            Binary64::nan()
        } else if self.infinite_spec() || other.infinite_spec() {
            Binary64::of(negative, INFINITY_CODE as nat)
        } else {
            Binary64::of(
                negative,
                rounding::round_code(
                    rounding::magnitude(self.code()) * rounding::magnitude(other.code()),
                    pow2(1074),
                ),
            )
        }
    }

    /// The number with the other sign.
    pub open spec fn minus(self) -> Binary64 {
        Binary64::of(!self.negative(), self.code())
    }

    /// Zero, the positive one.
    pub open spec fn zero() -> Binary64 {
        Binary64 { bits: 0 }
    }

    /// The integer `n`, rounded.
    pub open spec fn of_nat(n: nat) -> Binary64 {
        Binary64::of(false, rounding::round_code(n * pow2(1074), 1))
    }

    /// One tenth, rounded.
    pub open spec fn one_tenth() -> Binary64 {
        Binary64::of(false, rounding::round_code(pow2(1074), 10))
    }

    /// The number with this bit pattern.
    pub fn from_bits(bits: u64) -> (number: Binary64)
        ensures
            number.bits == bits,
    {
        Binary64 { bits }
    }

    /// The bit pattern.
    pub fn to_bits(self) -> (bits: u64)
        ensures
            bits == self.bits,
    {
        self.bits
    }

    fn make(negative: bool, code: u64) -> (number: Binary64)
        requires
            code <= INFINITY_CODE,
        ensures
            number == Binary64::of(negative, code as nat),
    {
        if negative {
            Binary64 { bits: SIGN + code }
        } else {
            Binary64 { bits: code }
        }
    }

    fn is_negative(self) -> (answer: bool)
        ensures
            answer == self.negative(),
    {
        self.bits >= SIGN
    }

    fn low_bits(self) -> (code: u64)
        ensures
            code == self.code(),
            code < SIGN,
    {
        if self.bits >= SIGN {
            self.bits - SIGN
        } else {
            self.bits
        }
    }

    /// Whether this is not a number.
    pub fn is_nan(self) -> (answer: bool)
        ensures
            answer == self.nan_spec(),
    {
        self.low_bits() > INFINITY_CODE
    }

    fn is_infinite(self) -> (answer: bool)
        ensures
            answer == self.infinite_spec(),
    {
        self.low_bits() == INFINITY_CODE
    }

    /// Whether `self` is strictly below `other`.
    pub fn less_than(self, other: Binary64) -> (answer: bool)
        ensures
            answer == self.lt(other),
    {
        if self.is_nan() || other.is_nan() {
            return false;
        }
        let a: u64 = self.low_bits();
        let b: u64 = other.low_bits();
        proof {
            lemma_order(self, other);
        }
        if self.is_negative() {
            if other.is_negative() {
                b < a
            } else {
                a > 0 || b > 0
            }
        } else {
            if other.is_negative() {
                false
            } else {
                a < b
            }
        }
    }

    /// Whether `self` is at most `other`.
    pub fn at_most(self, other: Binary64) -> (answer: bool)
        ensures
            answer == self.le(other),
    {
        !self.is_nan() && !other.is_nan() && !other.less_than(self)
    }

    /// Splits a finite number into an integer and a power of two.
    fn decode(self) -> (parts: (u64, u32))
        requires
            self.finite_spec(),
        ensures
            parts.0 < 0x20_0000_0000_0000,
            parts.1 <= 2045,
            parts.1 > 0 ==> parts.0 >= 0x10_0000_0000_0000,
            rounding::magnitude(self.code()) == parts.0 * pow2(parts.1 as nat),
            parts.1 == if self.code() / 0x10_0000_0000_0000 == 0 {
                0
            } else {
                self.code() / 0x10_0000_0000_0000 - 1
            },
    {
        let code: u64 = self.low_bits();
        let exponent: u64 = code / BINADE;
        let fraction: u64 = code % BINADE;
        proof {
            lemma2_to64();
        }
        if exponent == 0 {
            (fraction, 0)
        } else {
            (BINADE + fraction, (exponent - 1) as u32)
        }
    }

    /// `self + other`, rounded to nearest, ties to even.
    pub fn sum(self, other: Binary64) -> (total: Binary64)
        ensures
            total == self.plus(other),
    {
        if self.is_nan() || other.is_nan() {
            return Binary64 { bits: 0x7FF8_0000_0000_0000 };
        }
        if self.is_infinite() {
            if other.is_infinite() && self.is_negative() != other.is_negative() {
                return Binary64 { bits: 0x7FF8_0000_0000_0000 };
            }
            return self;
        }
        if other.is_infinite() {
            return other;
        }
        if self.low_bits() >= other.low_bits() {
            Binary64::finite_sum(self, other)
        } else {
            Binary64::finite_sum(other, self)
        }
    }

    /// The sum of two finite numbers, the first of no smaller magnitude.
    fn finite_sum(big: Binary64, small: Binary64) -> (total: Binary64)
        requires
            big.finite_spec(),
            small.finite_spec(),
            big.code() >= small.code(),
        ensures
            total == big.plus(small),
            total == small.plus(big),
    {
        proof {
            lemma_order(big, small);
        }
        if small.low_bits() == 0 {
            if big.low_bits() == 0 {
                return Binary64::make(big.is_negative() && small.is_negative(), 0);
            }
            proof {
                rounding::lemma_round_code_exact(big.code(), 1);
            }
            return big;
        }
        let (a, ea) = big.decode();
        let (b, eb) = small.decode();
        proof {
            vstd::arithmetic::div_mod::lemma_div_is_ordered(
                small.code() as int,
                big.code() as int,
                0x10_0000_0000_0000,
            );
        }
        let same: bool = big.is_negative() == small.is_negative();
        let gap: u32 = ea - eb;
        let ghost exact: int = if same {
            a * pow2(ea as nat) + b * pow2(eb as nat)
        } else {
            a * pow2(ea as nat) - b * pow2(eb as nat)
        };
        assert(big.value() + small.value() == if big.negative() {
            -exact
        } else {
            exact
        });
        let code: u64 = if gap <= 64 {
            proof {
                lemma_near_sum(a as nat, ea as nat, b as nat, eb as nat);
                rounding::lemma_pow2_below_128(gap as nat);
            }
            let aligned: u128 = a as u128 * rounding::power_of_two(gap);
            let x: u128 = if same {
                aligned + b as u128
            } else {
                proof {
                    lemma_near_difference(a as nat, ea as nat, b as nat, eb as nat);
                }
                aligned - b as u128
            };
            assert(exact == x * pow2(eb as nat));
            if x == 0 {
                assert(exact == 0);
                return Binary64::make(false, 0);
            }
            proof {
                lemma_pow2_pos(eb as nat);
                lemma_mul_strictly_positive(x as int, pow2(eb as nat) as int);
            }
            rounding::round_shifted(x, eb as i32)
        } else {
            proof {
                lemma_far_sum(a as nat, ea as nat, b as nat, eb as nat);
            }
            let y: u128 = if same {
                a as u128 * 16
            } else {
                a as u128 * 16 - 1
            };
            proof {
                lemma_pow2_pos(ea as nat);
                lemma_pow2_pos(eb as nat);
                lemma_mul_strictly_positive(a as int, pow2(ea as nat) as int);
                lemma_mul_strictly_positive(b as int, pow2(eb as nat) as int);
            }
            rounding::round_shifted(2 * y + 1, ea as i32 - 5)
        };
        assert(exact > 0 && code == rounding::round_code(exact as nat, 1));
        Binary64::make(big.is_negative(), code)
    }

    /// `self * other`, rounded to nearest, ties to even.
    pub fn product(self, other: Binary64) -> (total: Binary64)
        ensures
            total == self.times(other),
    {
        let negative: bool = self.is_negative() != other.is_negative();
        if self.is_nan() || other.is_nan() {
            return Binary64 { bits: 0x7FF8_0000_0000_0000 };
        }
        if self.is_infinite() || other.is_infinite() {
            if self.low_bits() == 0 || other.low_bits() == 0 {
                return Binary64 { bits: 0x7FF8_0000_0000_0000 };
            }
            return Binary64::make(negative, INFINITY_CODE);
        }
        let (a, ea) = self.decode();
        let (b, eb) = other.decode();
        assert(a * b < 0x20_0000_0000_0000 * 0x20_0000_0000_0000) by (nonlinear_arith)
            requires
                0 <= a < 0x20_0000_0000_0000,
                0 <= b < 0x20_0000_0000_0000,
        ;
        proof {
            lemma_mul_nonnegative(a as int, b as int);
            lemma_scaled_product(a as nat, ea as nat, b as nat, eb as nat);
        }
        let x: u128 = a as u128 * b as u128;
        let code: u64 = rounding::round_shifted(x, ea as i32 + eb as i32 - 1074);
        Binary64::make(negative, code)
    }

    /// `-self`.
    pub fn negate(self) -> (opposite: Binary64)
        ensures
            opposite == self.minus(),
    {
        if self.bits >= SIGN {
            Binary64 { bits: self.bits - SIGN }
        } else {
            Binary64 { bits: self.bits + SIGN }
        }
    }

    /// The number of items in a collection as a binary64 number, rounded where
    /// it has more than fifty-three significant bits.
    pub fn from_count(n: usize) -> (number: Binary64)
        ensures
            number == Binary64::of_nat(n as nat),
    {
        Binary64::make(false, rounding::round_shifted(n as u128, 1074))
    }
}

/// Numeric equality: zero equals minus zero, and not-a-number equals nothing.
impl PartialEq for Binary64 {
    fn eq(&self, other: &Binary64) -> (answer: bool) {
        self.at_most(*other) && other.at_most(*self)
    }
}

impl vstd::std_specs::cmp::PartialEqSpecImpl for Binary64 {
    open spec fn obeys_eq_spec() -> bool {
        true
    }

    open spec fn eq_spec(&self, other: &Binary64) -> bool {
        !self.nan_spec() && !other.nan_spec() && self.value() == other.value()
    }
}

/// The order of the terms does not matter to a sum.
pub proof fn lemma_sum_commutes(a: Binary64, b: Binary64)
    ensures
        a.plus(b) == b.plus(a),
{
}

/// Adding zero leaves the value.
pub proof fn lemma_sum_zero(a: Binary64)
    requires
        !a.nan_spec(),
    ensures
        !a.plus(Binary64::zero()).nan_spec(),
        a.plus(Binary64::zero()).value() == a.value(),
{
    lemma_order(a, Binary64::zero());
    if a.finite_spec() {
        rounding::lemma_round_code_exact(a.code(), 1);
    }
}

/// The value of a sum of two finite numbers.
spec fn rounded_value(exact: int) -> int {
    if exact < 0 {
        -(rounding::magnitude(rounding::round_code((-exact) as nat, 1)) as int)
    } else {
        rounding::magnitude(rounding::round_code(exact as nat, 1)) as int
    }
}

proof fn lemma_finite_sum_value(a: Binary64, b: Binary64)
    requires
        a.finite_spec(),
        b.finite_spec(),
    ensures
        !a.plus(b).nan_spec(),
        a.plus(b).value() == rounded_value(a.value() + b.value()),
{
    assert(rounding::magnitude(0) == 0);
    rounding::lemma_round_code_exact(0, 1);
}

proof fn lemma_rounded_value_monotone(x: int, y: int)
    requires
        x <= y,
    ensures
        rounded_value(x) <= rounded_value(y),
        -(rounding::magnitude(INFINITY_CODE as nat) as int) <= rounded_value(x)
            <= rounding::magnitude(INFINITY_CODE as nat),
{
    let top = INFINITY_CODE as nat;
    let p = |v: int| rounding::round_code((if v < 0 { -v } else { v }) as nat, 1);
    if y < 0 {
        rounding::lemma_round_code_monotone((-y) as nat, (-x) as nat, 1);
        if p(y) < p(x) {
            rounding::lemma_magnitude_increases(p(y), p(x));
        }
    } else if x >= 0 {
        rounding::lemma_round_code_monotone(x as nat, y as nat, 1);
        if p(x) < p(y) {
            rounding::lemma_magnitude_increases(p(x), p(y));
        }
    }
    if p(x) < top {
        rounding::lemma_magnitude_increases(p(x), top);
    }
}

/// Sums keep the order of their terms: if neither term shrinks, neither does
/// the sum, as long as both sums are numbers.
pub proof fn lemma_sum_monotone(a: Binary64, b: Binary64, c: Binary64, d: Binary64)
    requires
        a.le(c),
        b.le(d),
        !a.plus(b).nan_spec(),
        !c.plus(d).nan_spec(),
    ensures
        a.plus(b).le(c.plus(d)),
{
    let top = INFINITY_CODE as nat;
    lemma_bounded(a);
    lemma_bounded(b);
    lemma_bounded(c);
    lemma_bounded(d);
    lemma_bounded(a.plus(b));
    lemma_bounded(c.plus(d));
    if a.finite_spec() && b.finite_spec() {
        lemma_finite_sum_value(a, b);
    }
    if c.finite_spec() && d.finite_spec() {
        lemma_finite_sum_value(c, d);
    }
    if a.finite_spec() && b.finite_spec() && c.finite_spec() && d.finite_spec() {
        lemma_rounded_value_monotone(a.value() + b.value(), c.value() + d.value());
    }
}

/// A sum of two numbers, the first finite, is a number.
pub proof fn lemma_sum_finite(a: Binary64, b: Binary64)
    requires
        a.finite_spec(),
        !b.nan_spec(),
    ensures
        !a.plus(b).nan_spec(),
{
    if b.finite_spec() {
        lemma_finite_sum_value(a, b);
    }
}

/// What lies between finite numbers is finite.
pub proof fn lemma_between_finite(lo: Binary64, x: Binary64, hi: Binary64)
    requires
        lo.finite_spec(),
        hi.finite_spec(),
        lo.le(x),
        x.le(hi),
    ensures
        x.finite_spec(),
{
    lemma_bounded(lo);
    lemma_bounded(x);
    lemma_bounded(hi);
}

/// The bit pattern of one tenth.
pub proof fn lemma_one_tenth()
    ensures
        Binary64::one_tenth().bits == 0x3FB9_9999_9999_999A,
{
    lemma2_to64_rest();
    lemma_pow2_adds(56, 1018);
    lemma_pow2_pos(1018);
    let p = pow2(1018);
    assert(p * 0x100_0000_0000_0000 == pow2(1074));
    assert(p * 10 == 10 * p);
    rounding::lemma_round_code_at(0x100_0000_0000_0000, 10, 1018);
}

/// Every number lies between the infinities, and only they are that far out.
proof fn lemma_bounded(a: Binary64)
    requires
        !a.nan_spec(),
    ensures
        a.finite_spec() ==> -(rounding::magnitude(INFINITY_CODE as nat) as int) < a.value()
            < rounding::magnitude(INFINITY_CODE as nat),
        a.infinite_spec() ==> a.value() == if a.negative() {
            -(rounding::magnitude(INFINITY_CODE as nat) as int)
        } else {
            rounding::magnitude(INFINITY_CODE as nat) as int
        },
        rounding::magnitude(INFINITY_CODE as nat) > 0,
{
    assert(rounding::magnitude(0) == 0);
    rounding::lemma_magnitude_increases(0, INFINITY_CODE as nat);
    if a.finite_spec() {
        rounding::lemma_magnitude_increases(a.code(), INFINITY_CODE as nat);
    }
}

/// With close exponents the aligned integers are small enough to hold.
proof fn lemma_near_sum(a: nat, ea: nat, b: nat, eb: nat)
    requires
        a < 0x20_0000_0000_0000,
        b < 0x20_0000_0000_0000,
        eb <= ea <= eb + 64,
    ensures
        a * pow2((ea - eb) as nat) < 0x80_0000_0000_0000_0000_0000_0000_0000,
        a * pow2(ea) == (a * pow2((ea - eb) as nat)) * pow2(eb),
        (a * pow2((ea - eb) as nat) + b) * pow2(eb) == a * pow2(ea) + b * pow2(eb),
{
    let g = pow2((ea - eb) as nat);
    let p = pow2(eb);
    lemma2_to64();
    if ea - eb < 64 {
        lemma_pow2_strictly_increases((ea - eb) as nat, 64);
    }
    lemma_pow2_adds((ea - eb) as nat, eb);
    assert(a * g < 0x20_0000_0000_0000 * 0x1_0000_0000_0000_0000 + 1) by (nonlinear_arith)
        requires
            a < 0x20_0000_0000_0000,
            g <= 0x1_0000_0000_0000_0000,
    ;
    assert(a * (g * p) == (a * g) * p) by (nonlinear_arith);
    assert((a * g + b) * p == (a * g) * p + b * p) by (nonlinear_arith);
}

proof fn lemma_near_difference(a: nat, ea: nat, b: nat, eb: nat)
    requires
        eb <= ea,
        a * pow2(ea) >= b * pow2(eb),
        a * pow2(ea) == (a * pow2((ea - eb) as nat)) * pow2(eb),
    ensures
        a * pow2((ea - eb) as nat) >= b,
        (a * pow2((ea - eb) as nat) - b) * pow2(eb) == a * pow2(ea) - b * pow2(eb),
{
    let x = a * pow2((ea - eb) as nat);
    let p = pow2(eb);
    lemma_pow2_pos(eb);
    assert(x >= b) by (nonlinear_arith)
        requires
            x * p >= b * p,
            p > 0,
    ;
    assert((x - b) * p == x * p - b * p) by (nonlinear_arith);
}

/// With exponents far apart the smaller number only tells on which side of the
/// larger one the sum lies.
proof fn lemma_far_sum(a: nat, ea: nat, b: nat, eb: nat)
    requires
        0x10_0000_0000_0000 <= a < 0x20_0000_0000_0000,
        0 < b < 0x20_0000_0000_0000,
        eb + 64 < ea,
    ensures
        rounding::round_code((a * pow2(ea) + b * pow2(eb)) as nat, 1) == rounding::shifted_code(
            2 * (a * 16) + 1,
            ea - 5,
        ),
        a * pow2(ea) - b * pow2(eb) > 0,
        rounding::round_code((a * pow2(ea) - b * pow2(eb)) as nat, 1) == rounding::shifted_code(
            (2 * (a * 16 - 1) + 1) as nat,
            ea - 5,
        ),
{
    let n = (ea - 4) as nat;
    let c = pow2(n);
    let tiny = b * pow2(eb);
    lemma2_to64();
    lemma2_to64_rest();
    lemma_pow2_adds(4, n);
    lemma_pow2_adds(53, eb);
    lemma_pow2_strictly_increases(53 + eb, n);
    lemma_pow2_pos(eb);
    assert(0 < tiny < 0x20_0000_0000_0000 * pow2(eb)) by (nonlinear_arith)
        requires
            0 < b < 0x20_0000_0000_0000,
            pow2(eb) > 0,
            tiny == b * pow2(eb),
    ;
    assert(a * pow2(ea) == (a * 16) * c) by (nonlinear_arith)
        requires
            pow2(ea) == 16 * c,
    ;
    rounding::lemma_round_code_between(a * 16, tiny, n);
    let y = (a * 16 - 1) as nat;
    let t = (c - tiny) as nat;
    assert(a * pow2(ea) - tiny == y * c + t) by (nonlinear_arith)
        requires
            a * pow2(ea) == (a * 16) * c,
            y == a * 16 - 1,
            t == c - tiny,
    ;
    assert(y * c >= 0) by (nonlinear_arith)
        requires
            y >= 0,
            c >= 0,
    ;
    rounding::lemma_round_code_between(y, t, n);
}

proof fn lemma_scaled_product(a: nat, ea: nat, b: nat, eb: nat)
    ensures
        rounding::round_code((a * pow2(ea)) * (b * pow2(eb)), pow2(1074))
            == rounding::shifted_code(a * b, ea + eb - 1074),
{
    let x = a * b;
    let e = ea + eb;
    lemma_pow2_adds(ea, eb);
    assert((a * pow2(ea)) * (b * pow2(eb)) == x * pow2(e)) by (nonlinear_arith)
        requires
            x == a * b,
            pow2(e) == pow2(ea) * pow2(eb),
    ;
    if e >= 1074 {
        let k = (e - 1074) as nat;
        lemma_pow2_adds(1074, k);
        lemma_pow2_pos(1074);
        assert(x * pow2(e) == pow2(1074) * (x * pow2(k))) by (nonlinear_arith)
            requires
                pow2(e) == pow2(1074) * pow2(k),
        ;
        assert(pow2(1074) * 1 == pow2(1074));
        rounding::lemma_round_code_scale(x * pow2(k), 1, pow2(1074));
    } else {
        let k = (1074 - e) as nat;
        lemma_pow2_adds(e, k);
        lemma_pow2_pos(e);
        lemma_pow2_pos(k);
        assert(x * pow2(e) == pow2(e) * x) by (nonlinear_arith);
        rounding::lemma_round_code_scale(x, pow2(k), pow2(e));
    }
}

/// Signs and codes decide how values compare.
proof fn lemma_order(a: Binary64, b: Binary64)
    ensures
        a.code() < b.code() ==> rounding::magnitude(a.code()) < rounding::magnitude(b.code()),
        b.code() < a.code() ==> rounding::magnitude(b.code()) < rounding::magnitude(a.code()),
        a.code() == 0 <==> rounding::magnitude(a.code()) == 0,
        b.code() == 0 <==> rounding::magnitude(b.code()) == 0,
{
    if a.code() < b.code() {
        rounding::lemma_magnitude_increases(a.code(), b.code());
    }
    if b.code() < a.code() {
        rounding::lemma_magnitude_increases(b.code(), a.code());
    }
    assert(rounding::magnitude(0) == 0);
    if a.code() > 0 {
        rounding::lemma_magnitude_increases(0, a.code());
    }
    if b.code() > 0 {
        rounding::lemma_magnitude_increases(0, b.code());
    }
}

/// The interchange format: what the sign bit, the eleven exponent bits `e` and the
/// fifty-two fraction bits `f` of a number stand for.
pub proof fn lemma_format(x: Binary64, negative: bool, e: nat, f: nat)
    requires
        e < 2048,
        f < 0x10_0000_0000_0000,
        x.bits == e * 0x10_0000_0000_0000 + f + if negative {
            0x8000_0000_0000_0000int
        } else {
            0int
        },
    ensures
        x.negative() == negative,
        x.nan_spec() <==> e == 2047 && f > 0,
        x.infinite_spec() <==> e == 2047 && f == 0,
        x.finite_spec() <==> e < 2047,
        e == 0 ==> x.value() == if negative {
            -(f as int)
        } else {
            f as int
        },
        e > 0 ==> x.value() == if negative {
            -((0x10_0000_0000_0000 + f) * pow2((e - 1) as nat))
        } else {
            ((0x10_0000_0000_0000 + f) * pow2((e - 1) as nat)) as int
        },
{
    assert(x.code() == e * 0x10_0000_0000_0000 + f);
    assert(x.code() / 0x10_0000_0000_0000 == e);
    assert(x.code() % 0x10_0000_0000_0000 == f);
}

/// No number lies closer to a signed fraction than the one that it is rounded
/// to, and where another lies equally close that one is even.
proof fn lemma_signed_nearest(negative: bool, num: nat, d: nat, c: Binary64)
    requires
        d > 0,
        !c.nan_spec(),
    ensures
        ({
            let s = Binary64::of(negative, rounding::round_code(num, d));
            let exact: int = if negative {
                -(num as int)
            } else {
                num as int
            };
            let miss = s.value() * d - exact;
            let other = c.value() * d - exact;
            &&& !s.nan_spec()
            &&& (if miss < 0 {
                -miss
            } else {
                miss
            }) <= (if other < 0 {
                -other
            } else {
                other
            })
            &&& (if miss < 0 {
                -miss
            } else {
                miss
            }) == (if other < 0 {
                -other
            } else {
                other
            }) && s.value() != c.value() ==> s.bits % 2 == 0
        }),
{
    let code = rounding::round_code(num, d);
    let s = Binary64::of(negative, code);
    rounding::lemma_round_code_nearest(num, d, c.code());
    rounding::lemma_round_code_nearest(num, d, 0);
    assert(rounding::magnitude(0) == 0);
    let m = rounding::magnitude(c.code());
    let r = rounding::magnitude(code);
    assert(s.code() == code && s.negative() == negative);
    assert((-(m as int)) * d == -(m * d)) by (nonlinear_arith);
    assert((-(r as int)) * d == -(r * d)) by (nonlinear_arith);
    assert(0 * d == 0) by (nonlinear_arith);
    assert(m * d >= 0) by (nonlinear_arith)
        requires
            m >= 0,
            d >= 0,
    ;
    if m > 0 {
        assert(m * d > 0) by (nonlinear_arith)
            requires
                m > 0,
                d > 0,
        ;
    }
    assert(s.bits % 2 == code % 2);
}

/// A sum of finite numbers is the number nearest to the exact sum: no other lies
/// closer, and where another lies equally close the sum is even. Infinity stands
/// for two to the power 1024 here.
pub proof fn lemma_sum_is_nearest(a: Binary64, b: Binary64, c: Binary64)
    requires
        a.finite_spec(),
        b.finite_spec(),
        !c.nan_spec(),
    ensures
        ({
            let s = a.plus(b);
            let miss = s.value() - (a.value() + b.value());
            let other = c.value() - (a.value() + b.value());
            &&& !s.nan_spec()
            &&& (if miss < 0 {
                -miss
            } else {
                miss
            }) <= (if other < 0 {
                -other
            } else {
                other
            })
            &&& (if miss < 0 {
                -miss
            } else {
                miss
            }) == (if other < 0 {
                -other
            } else {
                other
            }) && s.value() != c.value() ==> s.bits % 2 == 0
        }),
{
    let exact = a.value() + b.value();
    let s = a.plus(b);
    assert(s.value() * 1 == s.value() && c.value() * 1 == c.value());
    if exact == 0 {
        assert(rounding::magnitude(0) == 0);
    } else if exact < 0 {
        lemma_signed_nearest(true, (-exact) as nat, 1, c);
    } else {
        lemma_signed_nearest(false, exact as nat, 1, c);
    }
}

/// The sums that are not those of finite numbers, and the sign of a sum that is
/// zero.
pub proof fn lemma_sum_special(a: Binary64, b: Binary64)
    ensures
        a.nan_spec() || b.nan_spec() ==> a.plus(b).nan_spec(),
        a.infinite_spec() && b.infinite_spec() && a != b ==> a.plus(b).nan_spec(),
        a.infinite_spec() && (b.finite_spec() || b == a) ==> a.plus(b) == a,
        b.infinite_spec() && a.finite_spec() ==> a.plus(b) == b,
        a.finite_spec() && b.finite_spec() && a.value() + b.value() == 0 ==> a.plus(b).value() == 0
            && a.plus(b).negative() == (a.negative() && b.negative()),
{
    assert(rounding::magnitude(0) == 0);
}

/// A product of finite numbers is the number nearest to the exact product: no
/// other lies closer, and where another lies equally close the product is even.
/// It is negative exactly if one factor is. Values count units of two to the power
/// -1074, hence the scale.
pub proof fn lemma_product_is_nearest(a: Binary64, b: Binary64, c: Binary64)
    requires
        a.finite_spec(),
        b.finite_spec(),
        !c.nan_spec(),
    ensures
        ({
            let s = a.times(b);
            let miss = s.value() * pow2(1074) - a.value() * b.value();
            let other = c.value() * pow2(1074) - a.value() * b.value();
            &&& !s.nan_spec()
            &&& s.negative() == (a.negative() != b.negative())
            &&& (if miss < 0 {
                -miss
            } else {
                miss
            }) <= (if other < 0 {
                -other
            } else {
                other
            })
            &&& (if miss < 0 {
                -miss
            } else {
                miss
            }) == (if other < 0 {
                -other
            } else {
                other
            }) && s.value() != c.value() ==> s.bits % 2 == 0
        }),
{
    let x = rounding::magnitude(a.code()) as int;
    let y = rounding::magnitude(b.code()) as int;
    let negative = a.negative() != b.negative();
    lemma_pow2_pos(1074);
    lemma_mul_nonnegative(x, y);
    assert(a.value() * b.value() == if negative {
        -(x * y)
    } else {
        x * y
    }) by {
        assert((-x) * y == -(x * y)) by (nonlinear_arith);
        assert(x * (-y) == -(x * y)) by (nonlinear_arith);
        assert((-x) * (-y) == x * y) by (nonlinear_arith);
    }
    lemma_signed_nearest(negative, (x * y) as nat, pow2(1074), c);
}

/// The products that are not those of finite numbers.
pub proof fn lemma_product_special(a: Binary64, b: Binary64)
    ensures
        a.nan_spec() || b.nan_spec() ==> a.times(b).nan_spec(),
        a.infinite_spec() && b.finite_spec() && b.value() == 0 ==> a.times(b).nan_spec(),
        b.infinite_spec() && a.finite_spec() && a.value() == 0 ==> a.times(b).nan_spec(),
        !a.nan_spec() && !b.nan_spec() && a.value() != 0 && b.value() != 0 && (a.infinite_spec()
            || b.infinite_spec()) ==> a.times(b).infinite_spec() && a.times(b).negative() == (
        a.negative() != b.negative()),
{
    lemma_order(a, b);
}

/// A whole number becomes the number nearest to it, the even one of two, and is
/// never negative.
pub proof fn lemma_count_is_nearest(n: nat, c: Binary64)
    requires
        !c.nan_spec(),
    ensures
        ({
            let s = Binary64::of_nat(n);
            let miss = s.value() - n * pow2(1074);
            let other = c.value() - n * pow2(1074);
            &&& !s.nan_spec()
            &&& !s.negative()
            &&& (if miss < 0 {
                -miss
            } else {
                miss
            }) <= (if other < 0 {
                -other
            } else {
                other
            })
            &&& (if miss < 0 {
                -miss
            } else {
                miss
            }) == (if other < 0 {
                -other
            } else {
                other
            }) && s.value() != c.value() ==> s.bits % 2 == 0
        }),
{
    let s = Binary64::of_nat(n);
    assert(s.value() * 1 == s.value() && c.value() * 1 == c.value());
    lemma_mul_nonnegative(n as int, pow2(1074) as int);
    lemma_signed_nearest(false, n * pow2(1074), 1, c);
}

/// Negation changes the sign bit and nothing else.
pub proof fn lemma_negation(a: Binary64)
    ensures
        a.minus().negative() != a.negative(),
        a.minus().bits as int - a.bits as int == if a.negative() {
            -0x8000_0000_0000_0000int
        } else {
            0x8000_0000_0000_0000int
        },
        a.minus().minus() == a,
        a.minus().value() == -a.value(),
        a.minus().nan_spec() == a.nan_spec(),
{
}

/// Numbers are ordered by their values, and not-a-number with nothing.
pub proof fn lemma_order_is_of_values(a: Binary64, b: Binary64)
    ensures
        a.nan_spec() || b.nan_spec() ==> !a.lt(b) && !a.le(b),
        !a.nan_spec() && !b.nan_spec() ==> (a.lt(b) <==> a.value() < b.value()),
        !a.nan_spec() && !b.nan_spec() ==> (a.le(b) <==> a.value() <= b.value()),
{
}

/// Two numbers are equal exactly if their values are; not-a-number equals
/// nothing, itself included.
pub proof fn lemma_equality_is_of_values(a: Binary64, b: Binary64)
    ensures
        vstd::std_specs::cmp::PartialEqSpec::eq_spec(&a, &b) <==> !a.nan_spec() && !b.nan_spec()
            && a.value() == b.value(),
{
}

} // verus!
