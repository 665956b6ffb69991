//! Binary floating point with a 53-bit significand, carried by integers.
//!
//! Geometry thresholds such as "7 % of the width" are defined by the rounding
//! of IEEE double arithmetic. A `Double` holds such a number as a sign, a
//! significand and an exponent; every operation returns the nearest such
//! number to the exact result, ties going to the even significand. Overflow
//! and underflow of the exponent do not arise in the ranges used here.

use vstd::arithmetic::div_mod::*;
use vstd::arithmetic::mul::*;
use vstd::arithmetic::power2::*;
use vstd::prelude::*;

verus! {

/// 2^52, the smallest normalised significand.
pub const LOW: u64 = 0x10_0000_0000_0000;

/// 2^53, one past the largest significand.
pub const TOP: u64 = 0x20_0000_0000_0000;

/// Exponents that the operations accept.
pub const SPAN: i32 = 4000;

/// The number `mant * 2^exp`, negated if `neg`.
#[derive(Clone, Copy, Debug, PartialEq, Eq, Structural)]
pub struct Double {
    pub neg: bool,
    pub mant: u64,
    pub exp: i32,
}

/// `p / q` rounded to an integer, ties to even.
pub open spec fn half_even(p: int, q: int) -> int {
    let d = p / q;
    let r = p % q;
    if 2 * r < q || (2 * r == q && d % 2 == 0) {
        d
    } else {
        d + 1
    }
}

/// 2^k for a non-negative `k`, else 1.
pub open spec fn up(k: int) -> int {
    if k >= 0 {
        pow2(k as nat) as int
    } else {
        1
    }
}

/// 2^-k for a negative `k`, else 1.
pub open spec fn down(k: int) -> int {
    up(-k)
}

/// `p / q` lies in `[2^52, 2^53) * 2^k`.
pub open spec fn in_binade(p: int, q: int, k: int) -> bool {
    LOW * (q * up(k)) <= p * down(k) < TOP * (q * up(k))
}

/// The exponent of `p / q`.
pub open spec fn binade(p: int, q: int) -> int {
    choose|k: int| in_binade(p, q, k)
}

/// The number nearest to `p / q * 2^e`, ties to the even significand,
/// negated if `neg`.
#[verifier::opaque]
pub open spec fn rounded(neg: bool, p: int, q: int, e: int) -> Double {
    if p == 0 {
        Double { neg: false, mant: 0, exp: 0 }
    } else {
        let k = binade(p, q);
        let m = half_even(p * down(k), q * up(k));
        if m == TOP {
            Double { neg, mant: LOW, exp: (e + k + 1) as i32 }
        } else {
            Double { neg, mant: m as u64, exp: (e + k) as i32 }
        }
    }
}

/// The magnitude of an integer.
pub open spec fn magnitude(v: int) -> int {
    if v < 0 {
        -v
    } else {
        v
    }
}

/// The number nearest to the integer `v`.
pub open spec fn whole(v: int) -> Double {
    rounded(v < 0, magnitude(v), 1, 0)
}

/// The number nearest to `p / q`; this is how a decimal constant reads.
pub open spec fn ratio(p: int, q: int) -> Double {
    rounded(false, p, q, 0)
}

impl Double {
    /// Zero has one form, every other number a normalised significand.
    pub open spec fn normal(self) -> bool {
        &&& self.mant == 0 ==> self.exp == 0 && !self.neg
        &&& self.mant != 0 ==> LOW <= self.mant < TOP
    }

    /// A number that the operations accept.
    pub open spec fn wf(self) -> bool {
        self.normal() && self.spread() <= SPAN
    }

    /// How far the exponent is from zero.
    pub closed spec fn spread(self) -> int {
        magnitude(self.exp as int)
    }

    /// The significand with its sign.
    pub open spec fn signed(self) -> int {
        if self.neg {
            -(self.mant as int)
        } else {
            self.mant as int
        }
    }

    /// The number at a scale: its value divided by `2^e`, for `e` not above
    /// its exponent.
    pub open spec fn at(self, e: int) -> int {
        self.signed() * up(self.exp - e)
    }

    pub open spec fn low_exp(self, other: Double) -> int {
        if self.exp < other.exp {
            self.exp as int
        } else {
            other.exp as int
        }
    }

    #[verifier::opaque]
    pub open spec fn spec_times(self, other: Double) -> Double {
        rounded(self.neg != other.neg, self.mant * other.mant, 1, self.exp + other.exp)
    }

    #[verifier::opaque]
    pub open spec fn spec_over(self, other: Double) -> Double {
        rounded(self.neg != other.neg, self.mant as int, other.mant as int, self.exp - other.exp)
    }

    #[verifier::opaque]
    pub open spec fn spec_plus(self, other: Double) -> Double {
        let e = self.low_exp(other);
        let s = self.at(e) + other.at(e);
        rounded(s < 0, magnitude(s), 1, e)
    }

    #[verifier::opaque]
    pub open spec fn spec_minus(self, other: Double) -> Double {
        let e = self.low_exp(other);
        let s = self.at(e) - other.at(e);
        rounded(s < 0, magnitude(s), 1, e)
    }

    #[verifier::opaque]
    pub open spec fn spec_lt(self, other: Double) -> bool {
        let e = self.low_exp(other);
        self.at(e) < other.at(e)
    }

    #[verifier::opaque]
    pub open spec fn spec_max(self, other: Double) -> Double {
        if self.spec_lt(other) {
            other
        } else {
            self
        }
    }

    #[verifier::opaque]
    pub open spec fn spec_min(self, other: Double) -> Double {
        if other.spec_lt(self) {
            other
        } else {
            self
        }
    }

    pub open spec fn spec_abs(self) -> Double {
        Double { neg: false, mant: self.mant, exp: self.exp }
    }

    /// The number with its sign turned over.
    pub open spec fn spec_negated(self) -> Double {
        if self.mant == 0 {
            self
        } else {
            Double { neg: !self.neg, mant: self.mant, exp: self.exp }
        }
    }

    /// The integer part, clamped to 64 signed bits.
    #[verifier::opaque]
    pub open spec fn spec_trunc(self) -> int {
        clamped(self.neg, self.mant * up(self.exp as int) / down(self.exp as int))
    }

    /// The nearest integer, halves away from zero, clamped to 64 signed bits.
    #[verifier::opaque]
    pub open spec fn spec_round(self) -> int {
        clamped(
            self.neg,
            (2 * (self.mant * up(self.exp as int)) + down(self.exp as int)) / (2 * down(
                self.exp as int,
            )),
        )
    }

    /// `r` is the nearest number to the square root: twice its significand is
    /// within one of twice the root, and the root is not below a power of two
    /// that it is said to round to.
    pub open spec fn has_root(self, r: Double) -> bool {
        &&& !r.neg
        &&& LOW <= r.mant < TOP
        &&& self.exp >= 2 * r.exp
        &&& ({
            let n = 4 * (self.mant * up(self.exp - 2 * r.exp));
            let m = 2 * r.mant as int;
            &&& (m - 1) * (m - 1) <= n < (m + 1) * (m + 1)
            &&& r.mant == LOW ==> m * m <= n
        })
    }

    /// The number nearest to the square root.
    #[verifier::opaque]
    pub open spec fn spec_sqrt(self) -> Double {
        if self.mant == 0 {
            self
        } else {
            choose|r: Double| self.has_root(r)
        }
    }
}

/// `v` with a sign, clamped to 64 signed bits.
pub open spec fn clamped(neg: bool, v: int) -> int {
    if neg {
        if v > 0x8000_0000_0000_0000 {
            -0x8000_0000_0000_0000
        } else {
            -v
        }
    } else {
        if v > 0x7fff_ffff_ffff_ffff {
            0x7fff_ffff_ffff_ffff
        } else {
            v
        }
    }
}

pub proof fn lemma_up_pos(k: int)
    ensures
        up(k) >= 1,
{
    if k >= 0 {
        lemma_pow2_pos(k as nat);
    }
}

/// Two integers one of which is the other times a power of two.
pub proof fn lemma_up_adds(a: int, b: int)
    requires
        a >= 0,
        b >= 0,
    ensures
        up(a + b) == up(a) * up(b),
{
    lemma_pow2_adds(a as nat, b as nat);
}

/// The exponent of a ratio is unique.
pub proof fn lemma_binade_unique(p: int, q: int, k: int)
    requires
        p > 0,
        q > 0,
        in_binade(p, q, k),
    ensures
        binade(p, q) == k,
{
    let j = binade(p, q);
    assert(in_binade(p, q, j));
    if j < k {
        lemma_binade_order(p, q, j, k);
    } else if k < j {
        lemma_binade_order(p, q, k, j);
    }
}

proof fn lemma_binade_order(p: int, q: int, j: int, k: int)
    requires
        p > 0,
        q > 0,
        j < k,
        in_binade(p, q, j),
    ensures
        !in_binade(p, q, k),
{
    lemma_up_pos(j);
    lemma_up_pos(k);
    lemma_up_pos(-j);
    lemma_up_pos(-k);
    // up(k) * down(j) >= 2 * up(j) * down(k)
    lemma2_to64();
    if j >= 0 {
        lemma_up_adds(j, k - j);
        lemma_up_two(k - j);
        assert(up(k) * down(j) >= 2 * (up(j) * down(k))) by (nonlinear_arith)
            requires
                up(k) == up(j) * up(k - j),
                up(k - j) >= 2,
                up(j) >= 1,
                down(j) == 1,
                down(k) == 1,
        ;
    } else if k > 0 {
        lemma_up_two(k);
        assert(up(k) * down(j) >= 2 * (up(j) * down(k))) by (nonlinear_arith)
            requires
                up(k) >= 2,
                up(j) == 1,
                down(j) >= 1,
                down(k) == 1,
        ;
    } else {
        lemma_up_adds(-k, k - j);
        lemma_up_two(k - j);
        assert(up(k) * down(j) >= 2 * (up(j) * down(k))) by (nonlinear_arith)
            requires
                down(j) == down(k) * up(k - j),
                up(k - j) >= 2,
                down(k) >= 1,
                up(j) == 1,
                up(k) == 1,
        ;
    }
    assert(!(LOW * (q * up(k)) <= p * down(k))) by (nonlinear_arith)
        requires
            p > 0,
            q > 0,
            up(j) >= 1,
            down(j) >= 1,
            up(k) >= 1,
            down(k) >= 1,
            up(k) * down(j) >= 2 * (up(j) * down(k)),
            p * down(j) < TOP * (q * up(j)),
            TOP == 2 * LOW,
    {
        let a = up(j);
        let b = down(j);
        let c = up(k);
        let d = down(k);
        assert(p * b * d < TOP * (q * a) * d) by (nonlinear_arith)
            requires
                p * b < TOP * (q * a),
                d >= 1,
        ;
        if LOW * (q * c) <= p * d {
            assert(LOW * (q * c) * b <= p * d * b) by (nonlinear_arith)
                requires
                    LOW * (q * c) <= p * d,
                    b >= 1,
            ;
        }
        assert(p * b * d == p * d * b) by (nonlinear_arith);
        assert(LOW * (q * c) * b == LOW * q * (c * b)) by (nonlinear_arith);
        assert(TOP * (q * a) * d == LOW * q * (2 * (a * d))) by (nonlinear_arith)
            requires
                TOP == 2 * LOW,
        ;
        assert(LOW * q * (c * b) >= LOW * q * (2 * (a * d))) by (nonlinear_arith)
            requires
                c * b >= 2 * (a * d),
                q > 0,
                LOW >= 0,
        ;
    }
}

pub proof fn lemma_up_two(k: int)
    requires
        k >= 1,
    ensures
        up(k) >= 2,
{
    lemma_pow2_unfold(k as nat);
    lemma_pow2_pos((k - 1) as nat);
}

/// Rounds `num / den * 2^e`, where `p` is the integer part of `num / den` and
/// `sticky` tells whether a fraction is left.
fn settle(
    neg: bool,
    p: u128,
    sticky: bool,
    e: i32,
    Ghost(num): Ghost<int>,
    Ghost(den): Ghost<int>,
) -> (r: Double)
    requires
        0 < p < 0x100_0000_0000_0000_0000_0000_0000_0000,
        den > 0,
        p * den <= num < (p + 1) * den,
        sticky <==> num != p * den,
        sticky ==> p >= 0x40_0000_0000_0000,
        -100_000 <= e <= 100_000,
    ensures
        r == rounded(neg, num, den, e as int),
        r.neg == neg,
        LOW <= r.mant < TOP,
        e - 53 <= r.exp <= e + 68,
        in_binade(num, den, binade(num, den)),
{
    proof {
        reveal(rounded);
        lemma2_to64();
    }
    if p >= TOP as u128 {
        let mut unit: u128 = 1;
        let mut top: u128 = TOP as u128;
        let mut k: i32 = 0;
        while p >= top
            invariant
                p < 0x100_0000_0000_0000_0000_0000_0000_0000,
                0 <= k <= 67,
                unit == up(k as int),
                unit >= 1,
                top == TOP * unit,
                unit * LOW <= p,
                k == 0 ==> p >= top,
            decreases 68 - k,
        {
            proof {
                lemma_pow2_unfold((k + 1) as nat);
                if k >= 67 {
                    lemma2_to64();
                    lemma_pow2_adds(64, 3);
                    assert(false) by (nonlinear_arith)
                        requires
                            unit >= 0x8_0000_0000_0000_0000,
                            top == TOP * unit,
                            p >= top,
                            p < 0x100_0000_0000_0000_0000_0000_0000_0000,
                            TOP == 0x20_0000_0000_0000,
                    ;
                }
            }
            unit = unit * 2;
            top = top * 2;
            k = k + 1;
        }
        let m: u128 = p / unit;
        let rem: u128 = p % unit;
        let half: u128 = unit / 2;
        let bump: bool = rem > half || (rem == half && (sticky || m % 2 == 1));
        proof {
            lemma_settled_binade(p as int, num, den, unit as int, k as int);
            lemma_settled_digits(p as int, num, den, unit as int, m as int, rem as int);
            assert(LOW <= m < TOP) by (nonlinear_arith)
                requires
                    p == m * unit + rem,
                    0 <= rem < unit,
                    LOW * unit <= p < TOP * unit,
            ;
            lemma_pow2_unfold(k as nat);
            lemma_settled_choice(p as int, num, den, unit as int, m as int, rem as int);
            assert(num * down(k as int) == num) by (nonlinear_arith)
                requires
                    down(k as int) == 1,
            ;
            assert(half_even(num * down(k as int), den * up(k as int)) == if bump {
                m + 1
            } else {
                m as int
            });
        }
        let mut mant: u64 = m as u64;
        if bump {
            mant = mant + 1;
        }
        if mant == TOP {
            Double { neg, mant: LOW, exp: e + k + 1 }
        } else {
            Double { neg, mant, exp: e + k }
        }
    } else {
        let mut m: u64 = p as u64;
        let mut k: i32 = 0;
        let ghost mut scale: int = 1;
        while m < LOW
            invariant
                0 < m < TOP,
                -52 <= k <= 0,
                scale == up(-k),
                scale >= 1,
                m == p * scale,
                m < LOW ==> k > -52,
            decreases k + 52,
        {
            proof {
                lemma_pow2_unfold((1 - k) as nat);
                assert(p * (2 * scale) == 2 * (p * scale)) by (nonlinear_arith);
                scale = 2 * scale;
                if k - 1 == -52 {
                    lemma2_to64_rest();
                    assert(p * scale >= scale) by (nonlinear_arith)
                        requires
                            p >= 1,
                            scale >= 1,
                    ;
                }
            }
            m = m * 2;
            k = k - 1;
        }
        proof {
            assert(num * down(k as int) == m * den) by (nonlinear_arith)
                requires
                    num == p * den,
                    m == p * down(k as int),
            ;
            assert(up(k as int) == 1);
            assert(den * up(k as int) == den) by (nonlinear_arith)
                requires
                    up(k as int) == 1,
            ;
            assert(num > 0) by (nonlinear_arith)
                requires
                    num == p * den,
                    p > 0,
                    den > 0,
            ;
            assert(LOW * den <= m * den && m * den < TOP * den) by (nonlinear_arith)
                requires
                    LOW <= m < TOP,
                    den > 0,
            ;
            lemma_binade_unique(num, den, k as int);
            lemma_fundamental_div_mod_converse(m * den, den, m as int, 0);
            assert(half_even(num * down(k as int), den * up(k as int)) == m);
        }
        Double { neg, mant: m, exp: e + k }
    }
}

/// The exponent of a ratio whose integer part is `p`.
proof fn lemma_settled_binade(p: int, num: int, den: int, unit: int, k: int)
    requires
        p > 0,
        den > 0,
        p * den <= num < (p + 1) * den,
        k >= 1,
        unit == up(k),
        LOW * unit <= p < TOP * unit,
    ensures
        num > 0,
        in_binade(num, den, k),
        binade(num, den) == k,
        down(k) == 1,
{
    assert(num > 0 && LOW * (den * unit) <= num && num < TOP * (den * unit)) by (nonlinear_arith)
        requires
            p > 0,
            den > 0,
            p * den <= num < (p + 1) * den,
            LOW * unit <= p,
            p + 1 <= TOP * unit,
    ;
    lemma_binade_unique(num, den, k);
}

proof fn lemma_settled_digits(p: int, num: int, den: int, unit: int, m: int, rem: int)
    requires
        den > 0,
        unit > 0,
        p * den <= num < (p + 1) * den,
        m == p / unit,
        rem == p % unit,
    ensures
        p == m * unit + rem,
        0 <= rem < unit,
        num / (den * unit) == m,
        num % (den * unit) == rem * den + (num - p * den),
{
    lemma_fundamental_div_mod(p, unit);
    lemma_mod_bound(p, unit);
    let f = num - p * den;
    assert(f < den) by (nonlinear_arith)
        requires
            num < (p + 1) * den,
            f == num - p * den,
    ;
    assert(p == m * unit + rem) by (nonlinear_arith)
        requires
            p == unit * m + rem,
    ;
    assert(num == m * (den * unit) + (rem * den + f) && 0 <= rem * den + f && rem * den + f < den
        * unit && den * unit > 0) by (nonlinear_arith)
        requires
            p == m * unit + rem,
            f == num - p * den,
            0 <= f < den,
            0 <= rem,
            rem + 1 <= unit,
            den > 0,
    ;
    lemma_fundamental_div_mod_converse(num, den * unit, m, rem * den + f);
}

proof fn lemma_settled_choice(p: int, num: int, den: int, unit: int, m: int, rem: int)
    requires
        den > 0,
        unit > 0,
        unit % 2 == 0,
        p * den <= num < (p + 1) * den,
        0 <= rem < unit,
        num / (den * unit) == m,
        num % (den * unit) == rem * den + (num - p * den),
    ensures
        half_even(num, den * unit) == if rem > unit / 2 || (rem == unit / 2 && (num != p * den || m
            % 2 == 1)) {
            m + 1
        } else {
            m
        },
{
    let f = num - p * den;
    let half = unit / 2;
    assert(0 <= f < den) by (nonlinear_arith)
        requires
            p * den <= num < (p + 1) * den,
            f == num - p * den,
    ;
    let r = rem * den + f;
    assert(2 * half == unit);
    if rem > half {
        assert(2 * r > den * unit) by (nonlinear_arith)
            requires
                rem >= half + 1,
                2 * half == unit,
                r == rem * den + f,
                f >= 0,
                den > 0,
        ;
    } else if rem < half {
        assert(2 * r < den * unit) by (nonlinear_arith)
            requires
                rem + 1 <= half,
                2 * half == unit,
                r == rem * den + f,
                f < den,
                den > 0,
        ;
    } else {
        assert(2 * r == den * unit + 2 * f) by (nonlinear_arith)
            requires
                rem == half,
                2 * half == unit,
                r == rem * den + f,
        ;
    }
}

/// Rounding depends on a ratio, not on the pair that writes it.
proof fn lemma_half_even_ratio(p1: int, q1: int, p2: int, q2: int)
    requires
        q1 > 0,
        q2 > 0,
        p1 * q2 == p2 * q1,
    ensures
        half_even(p1, q1) == half_even(p2, q2),
{
    let d = p1 / q1;
    let r1 = p1 % q1;
    lemma_fundamental_div_mod(p1, q1);
    lemma_mod_bound(p1, q1);
    let r2 = p2 - d * q2;
    assert(r2 * q1 == r1 * q2) by (nonlinear_arith)
        requires
            p1 == q1 * d + r1,
            p1 * q2 == p2 * q1,
            r2 == p2 - d * q2,
    ;
    assert(0 <= r2 < q2) by (nonlinear_arith)
        requires
            r2 * q1 == r1 * q2,
            0 <= r1 < q1,
            q2 > 0,
            q1 > 0,
    ;
    assert(p2 == d * q2 + r2);
    lemma_fundamental_div_mod_converse(p2, q2, d, r2);
    assert((2 * r1 < q1) == (2 * r2 < q2) && (2 * r1 == q1) == (2 * r2 == q2)) by (nonlinear_arith)
        requires
            r2 * q1 == r1 * q2,
            q1 > 0,
            q2 > 0,
    ;
}

proof fn lemma_rescale(neg: bool, p1: int, q1: int, k1: int, e1: int, p2: int, q2: int, k2: int, e2: int)
    requires
        p1 > 0,
        q1 > 0,
        p2 > 0,
        q2 > 0,
        in_binade(p1, q1, k1),
        (p1 * down(k1)) * (q2 * up(k2)) == (p2 * down(k2)) * (q1 * up(k1)),
        e1 + k1 == e2 + k2,
    ensures
        rounded(neg, p1, q1, e1) == rounded(neg, p2, q2, e2),
{
    reveal(rounded);
    lemma_up_pos(k1);
    lemma_up_pos(k2);
    let a1 = p1 * down(k1);
    let b1 = q1 * up(k1);
    let a2 = p2 * down(k2);
    let b2 = q2 * up(k2);
    assert(b1 > 0 && b2 > 0) by (nonlinear_arith)
        requires
            q1 > 0,
            q2 > 0,
            up(k1) >= 1,
            up(k2) >= 1,
            b1 == q1 * up(k1),
            b2 == q2 * up(k2),
    ;
    assert(LOW * b2 <= a2 && a2 < TOP * b2) by (nonlinear_arith)
        requires
            LOW * b1 <= a1,
            a1 < TOP * b1,
            a1 * b2 == a2 * b1,
            b1 > 0,
            b2 > 0,
    ;
    lemma_binade_unique(p1, q1, k1);
    lemma_binade_unique(p2, q2, k2);
    lemma_half_even_ratio(a1, b1, a2, b2);
}

proof fn lemma_shift(k: int, j: int)
    requires
        j >= 0,
    ensures
        up(k + j) * down(k) == up(k) * down(k + j) * up(j),
{
    lemma2_to64();
    if k >= 0 {
        lemma_up_adds(k, j);
        assert(down(k) == 1 && down(k + j) == 1);
        assert(up(k + j) * down(k) == up(k) * down(k + j) * up(j)) by (nonlinear_arith)
            requires
                up(k + j) == up(k) * up(j),
                down(k) == 1,
                down(k + j) == 1,
        ;
    } else if k + j >= 0 {
        lemma_up_adds(k + j, -k);
        assert(up(k) == 1 && down(k + j) == 1);
        assert(up(k + j) * down(k) == up(k) * down(k + j) * up(j)) by (nonlinear_arith)
            requires
                up(j) == up(k + j) * down(k),
                up(k) == 1,
                down(k + j) == 1,
        ;
    } else {
        lemma_up_adds(-(k + j), j);
        assert(up(k) == 1 && up(k + j) == 1);
        assert(up(k + j) * down(k) == up(k) * down(k + j) * up(j)) by (nonlinear_arith)
            requires
                down(k) == down(k + j) * up(j),
                up(k) == 1,
                up(k + j) == 1,
        ;
    }
}

/// A power of two moves from the numerator to the exponent.
proof fn lemma_rounded_scaled(neg: bool, p: int, q: int, e: int, j: int, k: int)
    requires
        p > 0,
        q > 0,
        j >= 0,
        in_binade(p * up(j), q, k),
    ensures
        rounded(neg, p * up(j), q, e - j) == rounded(neg, p, q, e),
{
    lemma_up_pos(j);
    lemma_shift(k - j, j);
    let (u1, d1, u2, d2, s) = (up(k), down(k), up(k - j), down(k - j), up(j));
    assert(p * s > 0) by (nonlinear_arith)
        requires
            p > 0,
            s >= 1,
    ;
    assert((p * s * d1) * (q * u2) == (p * q) * (u2 * d1 * s)) by (nonlinear_arith);
    assert((p * d2) * (q * u1) == (p * q) * (u1 * d2)) by (nonlinear_arith);
    lemma_rescale(neg, p * s, q, k, e - j, p, q, k - j, e);
}

/// A power of two moves from the denominator to the exponent.
proof fn lemma_rounded_divided(neg: bool, p: int, q: int, e: int, j: int, k: int)
    requires
        p > 0,
        q > 0,
        j >= 0,
        in_binade(p, q * up(j), k),
    ensures
        rounded(neg, p, q * up(j), e + j) == rounded(neg, p, q, e),
{
    lemma_up_pos(j);
    lemma_shift(k, j);
    let (u1, d1, u2, d2, s) = (up(k), down(k), up(k + j), down(k + j), up(j));
    assert(q * s > 0) by (nonlinear_arith)
        requires
            q > 0,
            s >= 1,
    ;
    assert((p * d1) * (q * u2) == (p * q) * (u2 * d1)) by (nonlinear_arith);
    assert((p * d2) * (q * s * u1) == (p * q) * (u1 * d2 * s)) by (nonlinear_arith);
    lemma_rescale(neg, p, q * s, k, e + j, p, q, k + j, e);
}

impl Double {
    pub fn zero() -> (r: Double)
        ensures
            r.wf(),
            r == whole(0),
            r.mant == 0,
            r.spread() == 0,
    {
        proof {
            reveal(rounded);
        }
        Double { neg: false, mant: 0, exp: 0 }
    }

    /// The nearest number to an integer.
    pub fn from_int(v: i64) -> (r: Double)
        ensures
            r == whole(v as int),
            r.wf(),
            r.spread() <= 68,
            r.neg == (v < 0),
            r.mant == 0 <==> v == 0,
    {
        if v == 0 {
            return Double::zero();
        }
        let p: u128 = if v < 0 {
            (-(v as i128)) as u128
        } else {
            v as u128
        };
        settle(v < 0, p, false, 0, Ghost(p as int), Ghost(1))
    }

    /// The nearest number to a count.
    pub fn from_count(v: usize) -> (r: Double)
        ensures
            r == whole(v as int),
            r.wf(),
            r.spread() <= 68,
            !r.neg,
            r.mant == 0 <==> v == 0,
    {
        if v == 0 {
            return Double::zero();
        }
        settle(false, v as u128, false, 0, Ghost(v as int), Ghost(1))
    }

    /// The nearest number to a non-negative decimal `p / q`.
    pub fn decimal(p: u32, q: u32) -> (r: Double)
        requires
            q > 0,
        ensures
            r == ratio(p as int, q as int),
            r.wf(),
            r.spread() <= 160,
            !r.neg,
            r.mant == 0 <==> p == 0,
    {
        if p == 0 {
            proof {
                reveal(rounded);
            }
            return Double::zero();
        }
        proof {
            lemma2_to64();
            lemma_pow2_adds(64, 22);
        }
        quotient(false, p as u64, q as u64, -86, 0x40_0000_0000_0000_0000_0000, Ghost(86))
    }

    pub fn times(self, other: Double) -> (r: Double)
        requires
            self.wf(),
            other.wf(),
        ensures
            r == self.spec_times(other),
            r.normal(),
            r.mant == 0 <==> self.mant == 0 || other.mant == 0,
            r.neg ==> self.neg != other.neg,
            r.spread() <= self.spread() + other.spread() + 128,
    {
        proof {
            reveal(Double::spec_times);
        }
        if self.mant == 0 || other.mant == 0 {
            proof {
                reveal(rounded);
                assert(self.mant * other.mant == 0) by (nonlinear_arith)
                    requires
                        self.mant == 0 || other.mant == 0,
                ;
            }
            return Double::zero();
        }
        proof {
            assert(0 < self.mant * other.mant < 0x400_0000_0000_0000_0000_0000_0000) by (
            nonlinear_arith)
                requires
                    0 < self.mant < 0x20_0000_0000_0000,
                    0 < other.mant < 0x20_0000_0000_0000,
            ;
        }
        let p: u128 = self.mant as u128 * other.mant as u128;
        settle(self.neg != other.neg, p, false, self.exp + other.exp, Ghost(p as int), Ghost(1))
    }

    pub fn over(self, other: Double) -> (r: Double)
        requires
            self.wf(),
            other.wf(),
            other.mant != 0,
        ensures
            r == self.spec_over(other),
            r.normal(),
            r.mant == 0 <==> self.mant == 0,
            r.neg ==> self.neg != other.neg,
            r.spread() <= self.spread() + other.spread() + 128,
    {
        proof {
            reveal(Double::spec_over);
        }
        if self.mant == 0 {
            proof {
                reveal(rounded);
            }
            return Double::zero();
        }
        proof {
            lemma2_to64();
        }
        quotient(
            self.neg != other.neg,
            self.mant,
            other.mant,
            self.exp - other.exp - 64,
            0x1_0000_0000_0000_0000,
            Ghost(64),
        )
    }

    pub fn negated(self) -> (r: Double)
        ensures
            r == self.spec_negated(),
            self.wf() ==> r.wf(),
            self.normal() ==> r.normal(),
            r.spread() == self.spread(),
            r.exp == self.exp,
    {
        if self.mant == 0 {
            self
        } else {
            Double { neg: !self.neg, mant: self.mant, exp: self.exp }
        }
    }

    pub fn abs(self) -> (r: Double)
        ensures
            r == self.spec_abs(),
            self.wf() ==> r.wf(),
            self.normal() ==> r.normal(),
            r.spread() == self.spread(),
            r.exp == self.exp,
    {
        Double { neg: false, mant: self.mant, exp: self.exp }
    }

    pub fn plus(self, other: Double) -> (r: Double)
        requires
            self.wf(),
            other.wf(),
        ensures
            r == self.spec_plus(other),
            r.normal(),
            !self.neg && !other.neg ==> !r.neg && (r.mant == 0 <==> self.mant == 0 && other.mant
                == 0),
            r.spread() <= self.spread() + other.spread() + 128,
            r.spread() <= self.spread() + 80 || r.spread() <= other.spread() + 80,
    {
        proof {
            reveal(Double::spec_plus);
        }
        if self.exp >= other.exp {
            sum(self, other)
        } else {
            sum(other, self)
        }
    }

    pub fn minus(self, other: Double) -> (r: Double)
        requires
            self.wf(),
            other.wf(),
        ensures
            r == self.spec_minus(other),
            r.normal(),
            r.spread() <= self.spread() + other.spread() + 128,
            r.spread() <= self.spread() + 80 || r.spread() <= other.spread() + 80,
    {
        proof {
            reveal(Double::spec_minus);
            reveal(Double::spec_plus);
        }
        let turned = other.negated();
        proof {
            let e = self.low_exp(other);
            let u = up(other.exp - e);
            assert(turned.signed() * u == -(other.signed() * u)) by (nonlinear_arith)
                requires
                    turned.signed() == -other.signed(),
            ;
        }
        self.plus(turned)
    }
}

/// `a / b * 2^e` rounded, computed from `a * unit` with `unit` = `2^j`.
fn quotient(neg: bool, a: u64, b: u64, e: i32, unit: u128, Ghost(j): Ghost<int>) -> (r: Double)
    requires
        0 < a < TOP,
        0 < b < TOP,
        -10_000 <= e <= 10_000,
        0 <= j <= 100,
        unit == up(j),
        (j == 64 && a >= LOW) || (j == 86 && a < 0x1_0000_0000 && b < 0x1_0000_0000),
    ensures
        r == rounded(neg, a as int, b as int, (e + j)),
        r.neg == neg,
        LOW <= r.mant < TOP,
        e - 53 <= r.exp <= e + 68,
{
    proof {
        lemma2_to64();
        lemma_pow2_adds(64, 22);
        assert(a * unit < 0x100_0000_0000_0000_0000_0000_0000_0000) by (nonlinear_arith)
            requires
                (unit == 0x1_0000_0000_0000_0000 && a < 0x20_0000_0000_0000) || (unit
                    == 0x40_0000_0000_0000_0000_0000 && a < 0x1_0000_0000),
        ;
    }
    let n: u128 = a as u128 * unit;
    let p: u128 = n / b as u128;
    let left: u128 = n % b as u128;
    proof {
        lemma_fundamental_div_mod(n as int, b as int);
        lemma_mod_bound(n as int, b as int);
        assert(p * b <= n && n < (p + 1) * b && n - p * b == left) by (nonlinear_arith)
            requires
                n == b * p + left,
                0 <= left < b,
        ;
        if p < 0x40_0000_0000_0000 {
            assert(n < 0x40_0000_0000_0000 * b) by (nonlinear_arith)
                requires
                    n < (p + 1) * b,
                    p + 1 <= 0x40_0000_0000_0000,
                    b > 0,
            ;
            assert(false) by (nonlinear_arith)
                requires
                    n == a * unit,
                    n < 0x40_0000_0000_0000 * b,
                    (unit == 0x1_0000_0000_0000_0000 && a >= 0x10_0000_0000_0000 && b
                        < 0x20_0000_0000_0000) || (unit == 0x40_0000_0000_0000_0000_0000 && a >= 1
                        && b < 0x1_0000_0000),
            ;
        }
        assert(p <= n) by (nonlinear_arith)
            requires
                p * b <= n,
                b >= 1,
        ;
    }
    let r = settle(neg, p, left != 0, e, Ghost(n as int), Ghost(b as int));
    proof {
        lemma_rounded_scaled(
            neg,
            a as int,
            b as int,
            e + j,
            j,
            binade(n as int, b as int),
        );
    }
    r
}

/// The sum of two numbers, the first with the larger exponent.
fn sum(hi: Double, lo: Double) -> (r: Double)
    requires
        hi.wf(),
        lo.wf(),
        hi.exp >= lo.exp,
    ensures
        ({
            let s = hi.at(lo.exp as int) + lo.at(lo.exp as int);
            r == rounded(s < 0, magnitude(s), 1, lo.exp as int)
        }),
        r.normal(),
        !hi.neg && !lo.neg ==> !r.neg && (r.mant == 0 <==> hi.mant == 0 && lo.mant == 0),
        r.spread() <= hi.spread() + lo.spread() + 128,
        r.spread() <= hi.spread() + 80 || r.spread() <= lo.spread() + 80,
{
    let d: i32 = hi.exp - lo.exp;
    let ghost s = hi.at(lo.exp as int) + lo.at(lo.exp as int);
    let ghost w = up(d as int);
    proof {
        reveal(rounded);
        lemma2_to64();
        lemma_up_pos(d as int);
        assert(lo.at(lo.exp as int) == lo.signed() * 1) by (nonlinear_arith)
            requires
                lo.at(lo.exp as int) == lo.signed() * up(0),
                up(0) == 1,
        ;
        assert(hi.signed() * w == if hi.neg {
            -(hi.mant * w)
        } else {
            hi.mant * w
        }) by (nonlinear_arith)
            requires
                hi.signed() == if hi.neg {
                    -(hi.mant as int)
                } else {
                    hi.mant as int
                },
        ;
        assert(hi.mant == 0 ==> hi.mant * w == 0) by (nonlinear_arith);
        assert(hi.mant > 0 ==> hi.mant * w > 0) by (nonlinear_arith)
            requires
                w >= 1,
        ;
    }
    if hi.mant == 0 {
        if lo.mant == 0 {
            return Double::zero();
        }
        return settle(lo.neg, lo.mant as u128, false, lo.exp, Ghost(lo.mant as int), Ghost(1));
    }
    if d > 64 {
        let base: u128 = hi.mant as u128 * 0x400;
        let ghost den = up(d - 10);
        proof {
            lemma_up_pos(d - 10);
            lemma_up_adds(10, d - 10);
            lemma_pow2_strictly_increases(54, (d - 10) as nat);
            lemma2_to64_rest();
            assert(hi.mant * w == base * den) by (nonlinear_arith)
                requires
                    w == 0x400 * den,
                    base == hi.mant * 0x400,
            ;
        }
        if lo.mant == 0 {
            let r = settle(hi.neg, base, false, hi.exp - 10, Ghost(base as int), Ghost(1));
            proof {
                let k = binade(base as int, 1);
                lemma_rounded_scaled_back(hi.neg, base as int, 1, hi.exp - 10, d - 10, k);
            }
            return r;
        }
        let near: bool = hi.neg == lo.neg;
        let p: u128 = if near {
            base
        } else {
            base - 1
        };
        let ghost num = magnitude(s);
        proof {
            assert(num == base * den + if near {
                lo.mant as int
            } else {
                -(lo.mant as int)
            }) by {
                assert(base * den > lo.mant) by (nonlinear_arith)
                    requires
                        base >= 1,
                        den > lo.mant,
                ;
            }
            assert(p * den <= num && num < (p + 1) * den && num != p * den) by (nonlinear_arith)
                requires
                    num == base * den + if near {
                        lo.mant as int
                    } else {
                        -(lo.mant as int)
                    },
                    0 < lo.mant < den,
                    p == if near {
                        base as int
                    } else {
                        base - 1
                    },
            ;
            assert(1 * den == den);
        }
        let r = settle(hi.neg, p, true, hi.exp - 10, Ghost(num), Ghost(den));
        proof {
            lemma_rounded_divided(hi.neg, num, 1, lo.exp as int, d - 10, binade(num, den));
        }
        return r;
    }
    let unit: u128 = power(d);
    proof {
        assert(0 < hi.mant * unit < 0x20_0000_0000_0000_0000_0000_0000_0000) by (nonlinear_arith)
            requires
                0 < hi.mant < 0x20_0000_0000_0000,
                1 <= unit <= 0x1_0000_0000_0000_0000,
        ;
    }
    let h: u128 = hi.mant as u128 * unit;
    let l: u128 = lo.mant as u128;
    if hi.neg == lo.neg || l == 0 {
        let p: u128 = h + l;
        settle(hi.neg, p, false, lo.exp, Ghost(p as int), Ghost(1))
    } else if h > l {
        let p: u128 = h - l;
        settle(hi.neg, p, false, lo.exp, Ghost(p as int), Ghost(1))
    } else if h < l {
        let p: u128 = l - h;
        settle(lo.neg, p, false, lo.exp, Ghost(p as int), Ghost(1))
    } else {
        Double::zero()
    }
}

/// A power of two moves from the exponent to the numerator.
proof fn lemma_rounded_scaled_back(neg: bool, p: int, q: int, e: int, j: int, k: int)
    requires
        p > 0,
        q > 0,
        j >= 0,
        in_binade(p, q, k),
    ensures
        rounded(neg, p * up(j), q, e - j) == rounded(neg, p, q, e),
{
    lemma_up_pos(j);
    lemma_shift(k, j);
    let (u1, d1, u2, d2, s) = (up(k), down(k), up(k + j), down(k + j), up(j));
    assert(p * s > 0) by (nonlinear_arith)
        requires
            p > 0,
            s >= 1,
    ;
    assert((p * d1) * (q * u2) == (p * q) * (u2 * d1)) by (nonlinear_arith);
    assert((p * s * d2) * (q * u1) == (p * q) * (u1 * d2 * s)) by (nonlinear_arith);
    lemma_rescale(neg, p, q, k, e, p * s, q, k + j, e - j);
}

impl Double {
    pub fn less(self, other: Double) -> (b: bool)
        requires
            self.wf(),
            other.wf(),
        ensures
            b == self.spec_lt(other),
            b && !self.neg ==> !other.neg,
    {
        proof {
            lemma_less(self, other);
        }
        if self.neg != other.neg {
            self.neg
        } else if self.neg {
            below(other, self)
        } else {
            below(self, other)
        }
    }

    pub fn max(self, other: Double) -> (r: Double)
        requires
            self.wf(),
            other.wf(),
        ensures
            r == self.spec_max(other),
            r.wf(),
            r.neg ==> self.neg && other.neg,
            r == self || r == other,
    {
        proof {
            reveal(Double::spec_max);
            lemma_less(self, other);
        }
        if self.less(other) {
            other
        } else {
            self
        }
    }

    pub fn min(self, other: Double) -> (r: Double)
        requires
            self.wf(),
            other.wf(),
        ensures
            r == self.spec_min(other),
            r.wf(),
            r == self || r == other,
    {
        proof {
            reveal(Double::spec_min);
        }
        if other.less(self) {
            other
        } else {
            self
        }
    }

    pub fn trunc(self) -> (r: i64)
        requires
            self.wf(),
        ensures
            r == self.spec_trunc(),
            !self.neg ==> r >= 0,
    {
        proof {
            reveal(Double::spec_trunc);
            lemma2_to64();
            assert(self.mant * 1 == self.mant);
            assert(0int / down(self.exp as int) == 0) by {
                lemma_up_pos(-self.exp);
                lemma_div_of0(down(self.exp as int));
            }
        }
        if self.exp >= 0 {
            proof {
                assert(down(self.exp as int) == 1);
                lemma_div_basics(self.mant * up(self.exp as int));
            }
            self.clamp_whole()
        } else {
            let j: i32 = -self.exp;
            if j > 53 {
                proof {
                    lemma_pow2_strictly_increases(53, j as nat);
                    lemma2_to64_rest();
                    lemma_basic_div(self.mant as int, down(self.exp as int));
                }
                0
            } else {
                let unit: u128 = power(j);
                proof {
                    lemma_div_nonincreasing(self.mant as int, unit as int);
                    lemma_div_pos_is_pos(self.mant as int, unit as int);
                }
                let v: i64 = (self.mant as u128 / unit) as i64;
                if self.neg {
                    -v
                } else {
                    v
                }
            }
        }
    }

    pub fn round(self) -> (r: i64)
        requires
            self.wf(),
        ensures
            r == self.spec_round(),
            !self.neg ==> r >= 0,
    {
        proof {
            reveal(Double::spec_round);
            lemma2_to64();
            assert(self.mant * 1 == self.mant);
        }
        if self.exp >= 0 {
            proof {
                let v = self.mant * up(self.exp as int);
                assert(down(self.exp as int) == 1);
                assert((2 * v + 1) / 2 == v);
            }
            self.clamp_whole()
        } else {
            let j: i32 = -self.exp;
            if j > 53 {
                proof {
                    lemma_pow2_strictly_increases(53, j as nat);
                    lemma2_to64_rest();
                    if j > 54 {
                        lemma_pow2_strictly_increases(54, j as nat);
                    }
                    let u = down(self.exp as int);
                    lemma_basic_div(2 * self.mant + u, 2 * u);
                }
                0
            } else {
                let unit: u128 = power(j);
                proof {
                    if j < 53 {
                        lemma_pow2_strictly_increases(j as nat, 53);
                    }
                    lemma2_to64_rest();
                    lemma_div_nonincreasing(2 * self.mant + unit, 2 * unit as int);
                    lemma_div_pos_is_pos(2 * self.mant + unit, 2 * unit as int);
                }
                let v: i64 = ((2 * self.mant as u128 + unit) / (2 * unit)) as i64;
                if self.neg {
                    -v
                } else {
                    v
                }
            }
        }
    }

    /// The value of a number without a fraction.
    fn clamp_whole(self) -> (r: i64)
        requires
            self.wf(),
            self.exp >= 0,
        ensures
            r == clamped(self.neg, self.mant * up(self.exp as int)),
    {
        proof {
            lemma2_to64();
        }
        if self.mant == 0 {
            proof {
                assert(self.mant * up(self.exp as int) == 0) by (nonlinear_arith)
                    requires
                        self.mant == 0,
                ;
            }
            return 0;
        }
        if self.exp > 10 {
            proof {
                lemma_pow2_unfold(11);
                if self.exp > 11 {
                    lemma_pow2_strictly_increases(11, self.exp as nat);
                }
                assert(self.mant * up(self.exp as int) >= 0x8000_0000_0000_0000) by (nonlinear_arith)
                    requires
                        self.mant >= 0x10_0000_0000_0000,
                        up(self.exp as int) >= 0x800,
                ;
            }
            if self.neg {
                i64::MIN
            } else {
                i64::MAX
            }
        } else {
            let unit: u128 = power(self.exp);
            proof {
                if self.exp < 10 {
                    lemma_pow2_strictly_increases(self.exp as nat, 10);
                }
                assert(self.mant * unit < 0x8000_0000_0000_0000) by (nonlinear_arith)
                    requires
                        self.mant < 0x20_0000_0000_0000,
                        unit <= 0x400,
                ;
            }
            let v: i64 = (self.mant as u128 * unit) as i64;
            if self.neg {
                -v
            } else {
                v
            }
        }
    }
}

/// 2^j.
fn power(j: i32) -> (r: u128)
    requires
        0 <= j <= 64,
    ensures
        r == up(j as int),
        1 <= r <= 0x1_0000_0000_0000_0000,
{
    let mut unit: u128 = 1;
    let mut i: i32 = 0;
    proof {
        lemma2_to64();
    }
    while i < j
        invariant
            0 <= i <= j <= 64,
            unit == up(i as int),
            1 <= unit <= 0x1_0000_0000_0000_0000,
        decreases j - i,
    {
        proof {
            lemma2_to64();
            lemma_pow2_unfold((i + 1) as nat);
            if i + 1 < 64 {
                lemma_pow2_strictly_increases((i + 1) as nat, 64);
            }
        }
        unit = unit * 2;
        i = i + 1;
    }
    unit
}

/// The magnitude of `a` is below that of `b`.
pub open spec fn is_below(a: Double, b: Double) -> bool {
    b.mant != 0 && (a.mant == 0 || a.exp < b.exp || (a.exp == b.exp && a.mant < b.mant))
}

fn below(a: Double, b: Double) -> (r: bool)
    ensures
        r == is_below(a, b),
{
    b.mant != 0 && (a.mant == 0 || a.exp < b.exp || (a.exp == b.exp && a.mant < b.mant))
}

proof fn lemma_below(a: Double, b: Double)
    requires
        a.wf(),
        b.wf(),
    ensures
        ({
            let e = a.low_exp(b);
            is_below(a, b) <==> a.mant * up(a.exp - e) < b.mant * up(b.exp - e)
        }),
{
    let e = a.low_exp(b);
    let (ua, ub) = (up(a.exp - e), up(b.exp - e));
    lemma_up_pos(a.exp - e);
    lemma_up_pos(b.exp - e);
    lemma2_to64();
    assert(a.mant == 0 ==> a.mant * ua == 0) by (nonlinear_arith);
    assert(b.mant == 0 ==> b.mant * ub == 0) by (nonlinear_arith);
    assert(b.mant > 0 ==> b.mant * ub > 0) by (nonlinear_arith)
        requires
            ub >= 1,
    ;
    assert(a.mant > 0 ==> a.mant * ua > 0) by (nonlinear_arith)
        requires
            ua >= 1,
    ;
    if a.mant != 0 && b.mant != 0 {
        if a.exp < b.exp {
            lemma_up_two(b.exp - a.exp);
            assert(a.mant * ua < b.mant * ub) by (nonlinear_arith)
                requires
                    ua == 1,
                    ub >= 2,
                    a.mant < 0x20_0000_0000_0000,
                    b.mant >= 0x10_0000_0000_0000,
            ;
        } else if a.exp > b.exp {
            lemma_up_two(a.exp - b.exp);
            assert(a.mant * ua > b.mant * ub) by (nonlinear_arith)
                requires
                    ub == 1,
                    ua >= 2,
                    b.mant < 0x20_0000_0000_0000,
                    a.mant >= 0x10_0000_0000_0000,
            ;
        } else {
            assert(a.mant * 1 == a.mant && b.mant * 1 == b.mant);
        }
    }
}

pub proof fn lemma_less(a: Double, b: Double)
    requires
        a.wf(),
        b.wf(),
    ensures
        a.spec_lt(b) <==> (if a.neg != b.neg {
            a.neg
        } else if a.neg {
            is_below(b, a)
        } else {
            is_below(a, b)
        }),
{
    reveal(Double::spec_lt);
    lemma_below(a, b);
    lemma_below(b, a);
    let e = a.low_exp(b);
    let (ua, ub) = (up(a.exp - e), up(b.exp - e));
    lemma_up_pos(a.exp - e);
    lemma_up_pos(b.exp - e);
    assert(a.signed() * ua == if a.neg {
        -(a.mant * ua)
    } else {
        a.mant * ua
    }) by (nonlinear_arith)
        requires
            a.signed() == if a.neg {
                -(a.mant as int)
            } else {
                a.mant as int
            },
    ;
    assert(b.signed() * ub == if b.neg {
        -(b.mant * ub)
    } else {
        b.mant * ub
    }) by (nonlinear_arith)
        requires
            b.signed() == if b.neg {
                -(b.mant as int)
            } else {
                b.mant as int
            },
    ;
    assert(a.mant * ua >= 0 && b.mant * ub >= 0) by (nonlinear_arith)
        requires
            ua >= 1,
            ub >= 1,
    ;
    assert(b.mant > 0 ==> b.mant * ub > 0) by (nonlinear_arith)
        requires
            ub >= 1,
    ;
    assert(a.mant > 0 ==> a.mant * ua > 0) by (nonlinear_arith)
        requires
            ua >= 1,
    ;
}

impl Double {
    pub fn sqrt(self) -> (r: Double)
        requires
            self.wf(),
            !self.neg,
        ensures
            r == self.spec_sqrt(),
            r.normal(),
            !r.neg,
            r.spread() <= self.spread() + 128,
    {
        if self.mant == 0 {
            proof {
                reveal(Double::spec_sqrt);
            }
            return self;
        }
        let even: bool = (self.exp + SPAN) % 2 == 0;
        let shift: i32 = if even {
            54
        } else {
            55
        };
        let unit: u128 = if even {
            0x40_0000_0000_0000
        } else {
            0x80_0000_0000_0000
        };
        proof {
            lemma2_to64_rest();
            assert(self.mant * unit >= 0x400_0000_0000_0000_0000_0000_0000 && self.mant * unit
                <= 0x1000_0000_0000_0000_0000_0000_0000 - 0x80_0000_0000_0000) by (nonlinear_arith)
                requires
                    0x10_0000_0000_0000 <= self.mant <= 0x20_0000_0000_0000 - 1,
                    unit == 0x40_0000_0000_0000 || unit == 0x80_0000_0000_0000,
            ;
        }
        let n: u128 = self.mant as u128 * unit;
        let root: u64 = whole_root(n);
        proof {
            if root < 0x20_0000_0000_0000 {
                assert((root + 1) * (root + 1) <= 0x400_0000_0000_0000_0000_0000_0000) by (
                nonlinear_arith)
                    requires
                        0 <= root < 0x20_0000_0000_0000,
                ;
            }
            if root >= 0x40_0000_0000_0000 - 1 {
                assert(root * root >= 0x1000_0000_0000_0000_0000_0000_0000 - 0x80_0000_0000_0000
                    + 1) by (nonlinear_arith)
                    requires
                        root >= 0x40_0000_0000_0000 - 1,
                ;
            }
        }
        let mant: u64 = (root + 1) / 2;
        let exp: i32 = (self.exp - shift + 2 * SPAN) / 2 - SPAN + 1;
        let r = Double { neg: false, mant, exp };
        proof {
            let m = 2 * mant as int;
            assert(self.exp - 2 * exp == shift - 2);
            let q = up(shift - 2);
            assert(4 * (self.mant * q) == n) by (nonlinear_arith)
                requires
                    n == self.mant * unit,
                    unit == 4 * q,
            ;
            assert((m - 1) * (m - 1) <= n < (m + 1) * (m + 1)) by (nonlinear_arith)
                requires
                    root * root <= n < (root + 1) * (root + 1),
                    m == root || m == root + 1,
                    root >= 1,
            ;
            lemma_root_unique(self, r);
        }
        r
    }
}

/// The integer part of a square root.
fn whole_root(n: u128) -> (r: u64)
    requires
        n < 0x1000_0000_0000_0000_0000_0000_0000,
    ensures
        r * r <= n < (r + 1) * (r + 1),
        r < 0x40_0000_0000_0000,
{
    let mut r: u64 = 0;
    let mut step: u64 = 0x40_0000_0000_0000;
    let ghost mut i: int = 54;
    proof {
        lemma2_to64_rest();
        lemma2_to64();
    }
    while step > 1
        invariant
            0 <= i <= 54,
            step == up(i),
            step <= 0x40_0000_0000_0000,
            r * r <= n < (r + step) * (r + step),
            n < 0x1000_0000_0000_0000_0000_0000_0000,
            r < 0x40_0000_0000_0000,
        decreases i,
    {
        proof {
            lemma2_to64();
            assert(i >= 1);
            lemma_pow2_unfold(i as nat);
            i = i - 1;
        }
        let bit: u64 = step / 2;
        let c: u64 = r + bit;
        proof {
            assert(c * c < 0x1_0000_0000_0000_0000_0000_0000_0000) by (nonlinear_arith)
                requires
                    0 <= c < 0x80_0000_0000_0000,
            ;
            assert((c + bit) * (c + bit) == (r + step) * (r + step)) by {
                assert(c + bit == r + step);
            }
        }
        if c as u128 * c as u128 <= n {
            proof {
                if c >= 0x40_0000_0000_0000 {
                    assert(c * c >= 0x1000_0000_0000_0000_0000_0000_0000) by (nonlinear_arith)
                        requires
                            c >= 0x40_0000_0000_0000,
                    ;
                }
            }
            r = c;
        }
        step = bit;
    }
    proof {
        if step == 0 {
            lemma_up_pos(i);
        }
    }
    r
}

proof fn lemma_root_order(d: Double, a: Double, b: Double)
    requires
        d.has_root(a),
        a.exp < b.exp || (a.exp == b.exp && a.mant < b.mant),
    ensures
        !d.has_root(b),
{
    if d.has_root(b) {
        let (ma, mb) = (2 * a.mant as int, 2 * b.mant as int);
        let (ua, ub) = (up(d.exp - 2 * a.exp), up(d.exp - 2 * b.exp));
        if a.exp < b.exp {
            let w = up(2 * (b.exp - a.exp));
            lemma_up_adds(d.exp - 2 * b.exp, 2 * (b.exp - a.exp));
            assert(w >= 4) by {
                lemma_up_adds(b.exp - a.exp, b.exp - a.exp);
                lemma_up_two(b.exp - a.exp);
                assert(up(b.exp - a.exp) * up(b.exp - a.exp) >= 4) by (nonlinear_arith)
                    requires
                        up(b.exp - a.exp) >= 2,
                ;
            }
            let (na, nb) = (4 * (d.mant * ua), 4 * (d.mant * ub));
            assert(na == nb * w) by (nonlinear_arith)
                requires
                    ua == ub * w,
                    na == 4 * (d.mant * ua),
                    nb == 4 * (d.mant * ub),
            ;
            assert(nb >= 0x20_0000_0000_0000 * 0x20_0000_0000_0000) by (nonlinear_arith)
                requires
                    mb == 0x20_0000_0000_0000 ==> mb * mb <= nb,
                    mb != 0x20_0000_0000_0000 ==> mb >= 0x20_0000_0000_0000 + 2 && (mb - 1) * (mb
                        - 1) <= nb,
            ;
            assert(na < 0x40_0000_0000_0000 * 0x40_0000_0000_0000) by (nonlinear_arith)
                requires
                    na < (ma + 1) * (ma + 1),
                    0 <= ma <= 0x40_0000_0000_0000 - 2,
            ;
            assert(nb * w >= nb * 4) by (nonlinear_arith)
                requires
                    nb >= 0,
                    w >= 4,
            ;
        } else {
            assert((ma + 1) * (ma + 1) <= (mb - 1) * (mb - 1)) by (nonlinear_arith)
                requires
                    ma + 2 <= mb,
                    ma >= 0,
            ;
        }
    }
}

/// The nearest number to a square root is unique.
proof fn lemma_root_unique(d: Double, r: Double)
    requires
        d.mant != 0,
        d.has_root(r),
    ensures
        d.spec_sqrt() == r,
{
    reveal(Double::spec_sqrt);
    let c = d.spec_sqrt();
    assert(d.has_root(c));
    if c.exp < r.exp || (c.exp == r.exp && c.mant < r.mant) {
        lemma_root_order(d, c, r);
    } else if r.exp < c.exp || (r.exp == c.exp && r.mant < c.mant) {
        lemma_root_order(d, r, c);
    }
}

/// A number and its opposite have the same square.
pub proof fn lemma_square_of_opposite(v: int)
    ensures
        whole(-v).spec_times(whole(-v)) == whole(v).spec_times(whole(v)),
{
    reveal(rounded);
    reveal(Double::spec_times);
}

/// An integer below 2^53 is held exactly.
pub proof fn lemma_whole_exact(n: int, j: int)
    requires
        0 < n,
        0 <= j,
        LOW <= n * up(j) < TOP,
    ensures
        whole(n) == (Double { neg: false, mant: (n * up(j)) as u64, exp: (-j) as i32 }),
{
    reveal(rounded);
    lemma2_to64();
    lemma_up_pos(j);
    let k = -j;
    assert(up(k) == 1);
    assert(1 * up(k) == 1);
    assert(down(k) == up(j));
    assert(in_binade(n, 1, k));
    lemma_binade_unique(n, 1, k);
    let v = n * up(j);
    assert(v / 1 == v && v % 1 == 0) by {
        lemma_div_basics(v);
    }
    assert(half_even(n * down(k), 1 * up(k)) == v);
}

/// There is a scale at which an integer fills 53 bits.
pub proof fn lemma_whole_scale(n: int, j: int) -> (r: int)
    requires
        0 < n,
        0 <= j <= 52,
        n * up(j) < TOP,
    ensures
        j <= r <= 52,
        LOW <= n * up(r) < TOP,
    decreases 52 - j,
{
    if n * up(j) >= LOW {
        j
    } else {
        lemma2_to64();
        lemma2_to64_rest();
        lemma_pow2_unfold((j + 1) as nat);
        if j == 52 {
            assert(n * up(52) >= up(52)) by (nonlinear_arith)
                requires
                    n >= 1,
                    up(52) >= 0,
            ;
        }
        assert(n * up(j + 1) == 2 * (n * up(j))) by (nonlinear_arith)
            requires
                up(j + 1) == 2 * up(j),
        ;
        lemma_whole_scale(n, j + 1)
    }
}

/// An integer up to 2^53 has a normalised form whose significand is a
/// multiple of it.
pub proof fn lemma_whole_form(n: int)
    requires
        0 < n <= TOP,
    ensures
        LOW <= whole(n).mant < TOP,
        !whole(n).neg,
        -52 <= whole(n).exp <= 1,
        n < TOP ==> whole(n).exp <= 0 && whole(n).mant == n * up(-whole(n).exp),
        n == TOP ==> whole(n).exp == 1,
{
    lemma2_to64();
    if n < TOP {
        assert(n * up(0) == n) by (nonlinear_arith)
            requires
                up(0) == 1,
        ;
        let j = lemma_whole_scale(n, 0);
        lemma_whole_exact(n, j);
    } else {
        reveal(rounded);
        assert(up(1) == 2);
        assert(down(1) == 1);
        assert(in_binade(n, 1, 1));
        lemma_binade_unique(n, 1, 1);
    }
}

/// The spread is the magnitude of the exponent.
pub proof fn lemma_spread(d: Double)
    ensures
        d.spread() == magnitude(d.exp as int),
{
}

/// The integer part of an integer is the integer.
pub proof fn lemma_whole_trunc(n: int)
    requires
        0 <= n < TOP,
    ensures
        whole(n).spec_trunc() == n,
        whole(n).wf(),
        !whole(n).neg,
        -52 <= whole(n).exp <= 0,
{
    reveal(Double::spec_trunc);
    lemma2_to64();
    if n == 0 {
        reveal(rounded);
        lemma_div_basics(0);
    } else {
        assert(n * up(0) == n) by (nonlinear_arith)
            requires
                up(0) == 1,
        ;
        let j = lemma_whole_scale(n, 0);
        lemma_whole_exact(n, j);
        lemma_up_pos(j);
        let v = n * up(j);
        assert(whole(n).mant == v);
        assert(whole(n).exp == -j);
        assert(up(-j) == 1);
        assert(v * up(-j) == v) by (nonlinear_arith)
            requires
                up(-j) == 1,
        ;
        assert(down(-j) == up(j));
        assert(v / up(j) == n) by {
            lemma_div_multiples_vanish(n, up(j));
            assert(n * up(j) == up(j) * n) by (nonlinear_arith);
        }
    }
}

/// A decimal below one is below one after rounding too.
proof fn lemma_ratio_below_one(p: int, q: int)
    requires
        0 < p < q <= 1000,
    ensures
        LOW <= ratio(p, q).mant < TOP,
        -1200 <= ratio(p, q).exp <= -53,
        !ratio(p, q).neg,
{
    reveal(rounded);
    lemma2_to64();
    lemma2_to64_rest();
    assert(p * down(-52) < LOW * q) by (nonlinear_arith)
        requires
            down(-52) == LOW,
            p < q,
            LOW > 0,
    ;
    lemma_ratio_binade(p, q, -52);
    let k = binade(p, q);
    assert(in_binade(p, q, k));
    lemma_up_pos(k);
    lemma_up_pos(-k);
    assert(up(k) == 1);
    let (num, den) = (p * down(k), q * up(k));
    assert(den == q) by (nonlinear_arith)
        requires
            up(k) == 1,
            den == q * up(k),
    ;
    let d = num / den;
    lemma_fundamental_div_mod(num, den);
    lemma_mod_bound(num, den);
    assert(LOW <= d < TOP) by (nonlinear_arith)
        requires
            LOW * q <= num < TOP * q,
            num == q * d + num % den,
            0 <= num % den < q,
            q > 0,
    ;
    if k == -53 {
        assert(num <= (q - 1) * TOP) by (nonlinear_arith)
            requires
                num == p * down(k),
                down(k) == TOP,
                p <= q - 1,
        ;
        assert(d + 1 < TOP) by (nonlinear_arith)
            requires
                num <= (q - 1) * TOP,
                num == q * d + num % den,
                0 <= num % den,
                0 < q <= 1000,
                TOP == 0x20_0000_0000_0000,
        ;
    }
}

/// The exponent of a ratio below one, searched from `k` downwards.
proof fn lemma_ratio_binade(p: int, q: int, k: int)
    requires
        0 < p < q <= 1000,
        -62 <= k <= -52,
        p * down(k) < LOW * q,
    ensures
        -63 <= binade(p, q) < k,
        in_binade(p, q, binade(p, q)),
    decreases k + 62,
{
    lemma2_to64_rest();
    lemma2_to64();
    lemma_pow2_unfold((-k + 1) as nat);
    lemma_up_pos(-k);
    let next = k - 1;
    assert(down(next) == 2 * down(k));
    assert(p * down(next) == 2 * (p * down(k))) by (nonlinear_arith)
        requires
            down(next) == 2 * down(k),
    ;
    assert(up(next) == 1);
    assert(q * up(next) == q) by (nonlinear_arith)
        requires
            up(next) == 1,
    ;
    if p * down(next) >= LOW * q {
        assert(in_binade(p, q, next));
        lemma_binade_unique(p, q, next);
    } else {
        assert(p * down(next) >= down(next)) by (nonlinear_arith)
            requires
                p >= 1,
                down(next) >= 0,
        ;
        assert(next > -62);
        lemma_ratio_binade(p, q, next);
    }
}

/// A product with a number below one does not exceed the other factor.
pub proof fn lemma_times_shrinks(a: Double, b: Double)
    requires
        b.wf(),
        !b.neg,
        b.mant != 0,
        !a.neg,
        LOW <= a.mant < TOP,
        -1200 <= a.exp <= -53,
        -1000 <= b.exp <= 1000,
    ensures
        !is_below(b, a.spec_times(b)),
        a.spec_times(b).wf(),
        !a.spec_times(b).neg,
{
    reveal(Double::spec_times);
    reveal(rounded);
    lemma2_to64();
    lemma2_to64_rest();
    let p = a.mant * b.mant;
    assert(0x1_0000_0000_0000 * 0x10_0000_0000_0000 <= p && p < TOP * b.mant && p > 0) by (
    nonlinear_arith)
        requires
            0x10_0000_0000_0000 <= a.mant < TOP,
            0x10_0000_0000_0000 <= b.mant,
            p == a.mant * b.mant,
    ;
    assert(LOW * LOW <= p) by (nonlinear_arith)
        requires
            LOW <= a.mant,
            LOW <= b.mant,
            p == a.mant * b.mant,
    ;
    // the product has 105 or 106 bits
    let k: int = if p < LOW * TOP {
        52
    } else {
        53
    };
    assert(up(52) == LOW && up(53) == TOP);
    assert(down(k) == 1);
    assert(1 * up(k) == up(k));
    assert(p * 1 == p);
    assert(p < TOP * TOP) by (nonlinear_arith)
        requires
            p < TOP * b.mant,
            b.mant < TOP,
    ;
    assert(in_binade(p, 1, k));
    lemma_binade_unique(p, 1, k);
    let unit = up(k);
    let d = p / unit;
    lemma_fundamental_div_mod(p, unit);
    lemma_mod_bound(p, unit);
    let m = half_even(p, unit);
    assert(LOW <= d < TOP) by (nonlinear_arith)
        requires
            LOW * unit <= p < TOP * unit,
            p == unit * d + p % unit,
            0 <= p % unit < unit,
    ;
    if k == 53 {
        assert(d < b.mant) by (nonlinear_arith)
            requires
                p < TOP * b.mant,
                unit == TOP,
                p == unit * d + p % unit,
                0 <= p % unit,
        ;
        assert(m <= b.mant);
    }
}

/// Integer parts keep the order.
pub proof fn lemma_trunc_order(a: Double, b: Double)
    requires
        a.wf(),
        b.wf(),
        !a.neg,
        !b.neg,
        !is_below(b, a),
    ensures
        a.spec_trunc() <= b.spec_trunc(),
{
    reveal(Double::spec_trunc);
    lemma_below(b, a);
    let e = b.low_exp(a);
    let e0 = if e < 0 {
        e
    } else {
        0
    };
    lemma2_to64();
    lemma_trunc_at(a, e0);
    lemma_trunc_at(b, e0);
    lemma_up_pos(-e0);
    let (ra, rb) = (a.mant * up(a.exp - e0), b.mant * up(b.exp - e0));
    lemma_up_adds(a.exp - e, e - e0);
    lemma_up_adds(b.exp - e, e - e0);
    lemma_up_pos(e - e0);
    assert(ra <= rb) by (nonlinear_arith)
        requires
            a.mant * up(a.exp - e) <= b.mant * up(b.exp - e),
            ra == a.mant * up(a.exp - e0),
            rb == b.mant * up(b.exp - e0),
            up(a.exp - e0) == up(a.exp - e) * up(e - e0),
            up(b.exp - e0) == up(b.exp - e) * up(e - e0),
            up(e - e0) >= 1,
    ;
    lemma_div_is_ordered(ra, rb, up(-e0));
}

/// The integer part from a scale at or below both zero and the exponent.
proof fn lemma_trunc_at(a: Double, e: int)
    requires
        e <= 0,
        e <= a.exp,
    ensures
        a.mant * up(a.exp as int) / down(a.exp as int) == (a.mant * up(a.exp - e)) / up(-e),
{
    lemma2_to64();
    lemma_up_pos(-e);
    let x = a.exp as int;
    lemma_up_pos(-x);
    if x >= 0 {
        lemma_up_adds(x, -e);
        assert(down(x) == 1);
        let v = a.mant * up(x);
        assert(a.mant * up(x - e) == v * up(-e)) by (nonlinear_arith)
            requires
                up(x - e) == up(x) * up(-e),
                v == a.mant * up(x),
        ;
        lemma_div_basics(v);
        lemma_div_multiples_vanish(v, up(-e));
        assert(v * up(-e) == up(-e) * v) by (nonlinear_arith);
    } else {
        lemma_up_adds(-x, x - e);
        assert(up(x) == 1);
        assert(a.mant * up(x) == a.mant) by (nonlinear_arith)
            requires
                up(x) == 1,
        ;
        lemma_up_pos(x - e);
        let (m, c, g) = (a.mant as int, up(-x), up(x - e));
        lemma_fundamental_div_mod(m, c);
        lemma_mod_bound(m, c);
        let (d, r) = (m / c, m % c);
        assert(m * g == d * (c * g) + r * g && 0 <= r * g && r * g < c * g) by (nonlinear_arith)
            requires
                m == c * d + r,
                0 <= r < c,
                g >= 1,
        ;
        lemma_fundamental_div_mod_converse(m * g, c * g, d, r * g);
    }
}

/// The part of an integer that a percentage below one hundred takes does not
/// exceed the integer.
pub proof fn lemma_percentage(p: int, n: int)
    requires
        0 < p < 100,
        0 <= n < TOP,
    ensures
        0 <= ratio(p, 100).spec_times(whole(n)).spec_trunc() <= n,
{
    lemma_ratio_below_one(p, 100);
    lemma_whole_trunc(n);
    let r = ratio(p, 100).spec_times(whole(n));
    if whole(n).mant == 0 {
        reveal(Double::spec_times);
        reveal(rounded);
        reveal(Double::spec_trunc);
        assert(ratio(p, 100).mant * whole(n).mant == 0) by (nonlinear_arith)
            requires
                whole(n).mant == 0,
        ;
        lemma2_to64();
        lemma_div_basics(0);
    } else {
        lemma_times_shrinks(ratio(p, 100), whole(n));
        lemma_trunc_order(r, whole(n));
        reveal(Double::spec_trunc);
        lemma_up_pos(r.exp as int);
        lemma_up_pos(-r.exp);
        assert(r.mant * up(r.exp as int) >= 0) by (nonlinear_arith)
            requires
                up(r.exp as int) >= 1,
        ;
        lemma_div_pos_is_pos(r.mant * up(r.exp as int), down(r.exp as int));
    }
}

/// A percentage below one hundred of an integer is not above the integer.
pub proof fn lemma_percentage_below(p: int, n: int)
    requires
        0 < p < 100,
        0 <= n < TOP,
    ensures
        !whole(n).spec_lt(ratio(p, 100).spec_times(whole(n))),
{
    lemma_ratio_below_one(p, 100);
    lemma_whole_trunc(n);
    let r = ratio(p, 100).spec_times(whole(n));
    if whole(n).mant == 0 {
        reveal(Double::spec_times);
        reveal(rounded);
        assert(ratio(p, 100).mant * whole(n).mant == 0) by (nonlinear_arith)
            requires
                whole(n).mant == 0,
        ;
        lemma_less(whole(n), r);
    } else {
        lemma_times_shrinks(ratio(p, 100), whole(n));
        lemma_less(whole(n), r);
    }
}

/// Rounding adds at most one to the integer part.
proof fn lemma_round_near_trunc(d: Double, n: int)
    requires
        !d.neg,
        d.spec_trunc() <= n < TOP,
    ensures
        0 <= d.spec_round() <= n + 1,
{
    reveal(Double::spec_trunc);
    reveal(Double::spec_round);
    let (a, u) = (d.mant * up(d.exp as int), down(d.exp as int));
    lemma_up_pos(d.exp as int);
    lemma_up_pos(-d.exp);
    assert(a >= 0) by (nonlinear_arith)
        requires
            a == d.mant * up(d.exp as int),
            up(d.exp as int) >= 1,
    ;
    let (t, q) = (a / u, (2 * a + u) / (2 * u));
    lemma_fundamental_div_mod(a, u);
    lemma_mod_bound(a, u);
    lemma_fundamental_div_mod(2 * a + u, 2 * u);
    lemma_mod_bound(2 * a + u, 2 * u);
    lemma_div_pos_is_pos(a, u);
    lemma_div_pos_is_pos(2 * a + u, 2 * u);
    let (r, s) = (a % u, (2 * a + u) % (2 * u));
    assert(q <= t + 1) by (nonlinear_arith)
        requires
            a == u * t + r,
            0 <= r < u,
            2 * a + u == (2 * u) * q + s,
            0 <= s,
            u > 0,
    ;
}

/// An integer times a number up to one rounds to at most one more than it.
pub proof fn lemma_shrunk_round(scale: Double, n: int)
    requires
        scale.wf(),
        !scale.neg,
        scale.mant != 0,
        -1000 <= scale.exp,
        !is_below(whole(1), scale),
        0 <= n < TOP,
    ensures
        0 <= whole(n).spec_times(scale).spec_round() <= n + 1,
{
    lemma2_to64();
    lemma2_to64_rest();
    lemma_whole_exact(1, 52);
    lemma_whole_trunc(n);
    let (b, r) = (whole(n), whole(n).spec_times(scale));
    if b.mant == 0 {
        reveal(Double::spec_times);
        reveal(rounded);
        reveal(Double::spec_trunc);
        assert(b.mant * scale.mant == 0) by (nonlinear_arith)
            requires
                b.mant == 0,
        ;
        lemma_div_basics(0);
    } else if scale.exp < -52 {
        lemma_times_shrinks(scale, b);
        assert(r == scale.spec_times(b)) by {
            reveal(Double::spec_times);
            assert(b.mant * scale.mant == scale.mant * b.mant) by (nonlinear_arith);
        }
        lemma_trunc_order(r, b);
    } else {
        lemma_times_one(b, scale);
    }
    lemma_round_near_trunc(r, n);
}

/// A rounded ratio fills 53 bits, with the exponent of the ratio or the next.
pub proof fn lemma_rounded_form(neg: bool, p: int, q: int, e: int, k: int)
    requires
        p > 0,
        q > 0,
        in_binade(p, q, k),
        -10000 <= e + k <= 10000,
    ensures
        LOW <= rounded(neg, p, q, e).mant < TOP,
        rounded(neg, p, q, e).neg == neg,
        e + k <= rounded(neg, p, q, e).exp <= e + k + 1,
{
    reveal(rounded);
    lemma_binade_unique(p, q, k);
    lemma_up_pos(k);
    let (a, unit) = (p * down(k), q * up(k));
    assert(unit > 0) by (nonlinear_arith)
        requires
            unit == q * up(k),
            q > 0,
            up(k) >= 1,
    ;
    lemma_fundamental_div_mod(a, unit);
    lemma_mod_bound(a, unit);
    let d = a / unit;
    assert(LOW <= d < TOP) by (nonlinear_arith)
        requires
            LOW * unit <= a < TOP * unit,
            a == unit * d + a % unit,
            0 <= a % unit < unit,
    ;
}

/// A side that is scaled like the longer one is to 960 stays small, and a longer
/// one above 2^13 is made shorter.
pub proof fn lemma_fitted_round(long: int, side: int)
    requires
        0 < long < TOP,
        0 <= side <= long,
    ensures
        0 <= whole(side).spec_times(whole(960).spec_over(whole(long))).spec_round() <= 0x2001,
        0x2000 < long ==> !is_below(whole(1), whole(960).spec_over(whole(long))),
{
    lemma2_to64();
    lemma2_to64_rest();
    assert(960 * up(43) == 0x1e_0000_0000_0000);
    lemma_whole_exact(960, 43);
    lemma_whole_exact(1, 52);
    lemma_whole_form(long);
    let (a, b, c) = (whole(960), whole(long), whole(side));
    let scale = a.spec_over(b);
    let (p, q) = (a.mant as int, b.mant as int);
    let k: int = if p < q {
        -53
    } else {
        -52
    };
    assert(up(52) == LOW && up(53) == TOP);
    assert(up(k) == 1 && q * up(k) == q) by (nonlinear_arith)
        requires
            up(k) == 1,
    ;
    assert(down(k) == up(-k));
    assert(LOW * q <= p * down(k) && p * down(k) < TOP * q) by (nonlinear_arith)
        requires
            LOW <= p < TOP,
            LOW <= q < TOP,
            TOP == 2 * LOW,
            p < q ==> down(k) == TOP,
            p >= q ==> down(k) == LOW,
    ;
    assert(in_binade(p, q, k));
    lemma_rounded_form(false, p, q, a.exp - b.exp, k);
    assert(scale == rounded(false, p, q, a.exp - b.exp)) by {
        reveal(Double::spec_over);
    }
    if 0x2000 < long && b.exp <= -40 {
        lemma_up_adds(40, -40 - b.exp);
        lemma_up_pos(-40 - b.exp);
        let u = up(-40 - b.exp);
        assert(up(40) == 0x100_0000_0000);
        assert(long * (0x100_0000_0000 * u) > 0x20_0000_0000_0000) by (nonlinear_arith)
            requires
                long > 0x2000,
                u >= 1,
        ;
        assert(false);
    }
    let r = c.spec_times(scale);
    if side == 0 {
        reveal(Double::spec_times);
        reveal(Double::spec_trunc);
        reveal(rounded);
        assert(c.mant == 0);
        assert(c.mant * scale.mant == 0) by (nonlinear_arith)
            requires
                c.mant == 0,
        ;
        lemma_div_basics(0);
        lemma_round_near_trunc(r, 0);
    } else {
        lemma_whole_form(side);
        if c.exp > b.exp {
            lemma_up_adds(-c.exp, c.exp - b.exp);
            lemma_up_two(c.exp - b.exp);
            lemma_up_pos(-c.exp);
            let (u, v) = (up(-c.exp), up(c.exp - b.exp));
            assert(b.mant >= 2 * c.mant) by (nonlinear_arith)
                requires
                    b.mant == long * (u * v),
                    c.mant == side * u,
                    side <= long,
                    0 < side,
                    u >= 1,
                    v >= 2,
            ;
            assert(false);
        }
        let m = c.mant * scale.mant;
        assert(LOW * LOW <= m && m < TOP * TOP) by (nonlinear_arith)
            requires
                LOW <= c.mant < TOP,
                LOW <= scale.mant < TOP,
                m == c.mant * scale.mant,
        ;
        let j: int = if m < LOW * TOP {
            52
        } else {
            53
        };
        assert(down(j) == 1 && 1 * up(j) == up(j) && m * 1 == m);
        assert(in_binade(m, 1, j));
        lemma_rounded_form(false, m, 1, c.exp + scale.exp, j);
        assert(r == rounded(false, m, 1, c.exp + scale.exp)) by {
            reveal(Double::spec_times);
        }
        assert(r.exp <= -40);
        assert(r.spec_trunc() <= 0x2000) by {
            reveal(Double::spec_trunc);
            let far = down(r.exp as int);
            lemma_up_adds(40, -40 - r.exp);
            lemma_up_pos(-40 - r.exp);
            assert(up(40) == 0x100_0000_0000);
            assert(far >= 0x100_0000_0000) by (nonlinear_arith)
                requires
                    far == 0x100_0000_0000 * up(-40 - r.exp),
                    up(-40 - r.exp) >= 1,
            ;
            let t = r.mant as int / far;
            lemma_fundamental_div_mod(r.mant as int, far);
            lemma_mod_bound(r.mant as int, far);
            assert(t < 0x2000) by (nonlinear_arith)
                requires
                    r.mant == far * t + r.mant as int % far,
                    0 <= r.mant as int % far,
                    r.mant < 0x20_0000_0000_0000,
                    far >= 0x100_0000_0000,
            ;
            assert(r.mant * up(r.exp as int) == r.mant);
        }
        lemma_round_near_trunc(r, 0x2000);
    }
}

/// A number times one is the number.
proof fn lemma_times_one(b: Double, one: Double)
    requires
        b.wf(),
        !b.neg,
        b.mant != 0,
        !one.neg,
        one.mant == LOW,
        one.exp == -52,
    ensures
        b.spec_times(one) == b,
{
    reveal(Double::spec_times);
    reveal(rounded);
    lemma2_to64();
    lemma2_to64_rest();
    let (m, p) = (b.mant as int, b.mant * one.mant);
    assert(up(52) == LOW && down(52) == 1);
    assert(LOW * LOW <= p && p < TOP * LOW && p > 0) by (nonlinear_arith)
        requires
            p == m * LOW,
            LOW <= m < TOP,
            LOW == 0x10_0000_0000_0000,
    ;
    assert(in_binade(p, 1, 52));
    lemma_binade_unique(p, 1, 52);
    assert(p / (LOW as int) == m && p % (LOW as int) == 0) by {
        lemma_fundamental_div_mod_converse(p, LOW as int, m, 0);
    }
    assert(half_even(p * down(52), 1 * up(52)) == m);
}

/// Two numbers compare alike at every scale below both.
proof fn lemma_compared_at(a: Double, b: Double, e: int)
    requires
        e <= a.exp,
        e <= b.exp,
    ensures
        a.spec_lt(b) <==> a.at(e) < b.at(e),
{
    reveal(Double::spec_lt);
    let low = a.low_exp(b);
    lemma_at_lower(a, low, e);
    lemma_at_lower(b, low, e);
    let u = up(low - e);
    lemma_up_pos(low - e);
    let (x, y) = (a.at(low), b.at(low));
    assert(x < y <==> x * u < y * u) by (nonlinear_arith)
        requires
            u >= 1,
    ;
}

proof fn lemma_at_lower(a: Double, high: int, low: int)
    requires
        low <= high <= a.exp,
    ensures
        a.at(low) == a.at(high) * up(high - low),
{
    lemma_up_adds(a.exp - high, high - low);
    let (s, p, q) = (a.signed(), up(a.exp - high), up(high - low));
    assert(s * (p * q) == (s * p) * q) by (nonlinear_arith);
}

/// What is not above a number that is not above another is not above that one.
pub proof fn lemma_not_above_transitive(a: Double, b: Double, c: Double)
    requires
        !b.spec_lt(a),
        !c.spec_lt(b),
    ensures
        !c.spec_lt(a),
{
    let ab = a.low_exp(b);
    let e = if ab < c.exp {
        ab
    } else {
        c.exp as int
    };
    lemma_compared_at(b, a, e);
    lemma_compared_at(c, b, e);
    lemma_compared_at(c, a, e);
}

/// A number is not below itself.
pub proof fn lemma_not_below_itself(a: Double)
    ensures
        !a.spec_lt(a),
{
    reveal(Double::spec_lt);
}

/// Of two numbers one is not above the other.
pub proof fn lemma_below_is_not_above(a: Double, b: Double)
    requires
        a.spec_lt(b),
    ensures
        !b.spec_lt(a),
{
    lemma_compared_at(a, b, a.low_exp(b));
    lemma_compared_at(b, a, a.low_exp(b));
}

/// What is not below an integer has an integer part of at least it.
pub proof fn lemma_trunc_at_least(x: Double, n: int)
    requires
        0 < n < TOP,
        !x.spec_lt(whole(n)),
    ensures
        x.spec_trunc() >= n,
{
    reveal(Double::spec_trunc);
    lemma_whole_form(n);
    let y = whole(n);
    let e = if x.exp < y.exp {
        x.exp as int
    } else {
        y.exp as int
    };
    let e = if e < 0 {
        e
    } else {
        0
    };
    lemma_compared_at(x, y, e);
    lemma_trunc_at(x, e);
    lemma_up_pos(-e);
    lemma_up_adds(-y.exp, y.exp - e);
    lemma_up_pos(x.exp - e);
    let (u, v) = (up(-e), up(x.exp - e));
    assert(y.at(e) == n * u) by (nonlinear_arith)
        requires
            y.at(e) == y.mant * up(y.exp - e),
            y.mant == n * up(-y.exp),
            u == up(-y.exp) * up(y.exp - e),
    ;
    let m = x.mant as int;
    assert(n * u > 0) by (nonlinear_arith)
        requires
            n > 0,
            u >= 1,
    ;
    if x.neg {
        assert((-m) * v <= 0) by (nonlinear_arith)
            requires
                m >= 0,
                v >= 1,
        ;
    }
    assert(m * v >= n * u);
    lemma_div_is_ordered(n * u, m * v, u);
    lemma_div_multiples_vanish(n, u);
    assert(u * n == n * u) by (nonlinear_arith);
}

/// A number divided by itself is one.
pub proof fn lemma_over_itself(d: Double)
    requires
        LOW <= d.mant < TOP,
    ensures
        d.spec_over(d) == whole(1),
{
    reveal(Double::spec_over);
    reveal(rounded);
    lemma2_to64();
    lemma2_to64_rest();
    lemma_whole_exact(1, 52);
    let m = d.mant as int;
    assert(up(-52) == 1 && down(-52) == LOW);
    assert(LOW * (m * 1) <= m * LOW && m * LOW < TOP * (m * 1) && m * LOW > 0) by (nonlinear_arith)
        requires
            LOW <= m < TOP,
            LOW == 0x10_0000_0000_0000,
    ;
    assert(in_binade(m, m, -52));
    lemma_binade_unique(m, m, -52);
    assert((m * LOW) / m == LOW && (m * LOW) % m == 0) by {
        assert(m * LOW == LOW * m + 0) by (nonlinear_arith);
        lemma_fundamental_div_mod_converse(m * LOW, m, LOW as int, 0);
    }
    assert(half_even(m * down(-52), m * up(-52)) == LOW);
}

/// A whole number times one is the number.
pub proof fn lemma_whole_times_one(n: int)
    requires
        0 < n < TOP,
    ensures
        whole(n).spec_times(whole(1)) == whole(n),
{
    lemma2_to64_rest();
    lemma_whole_exact(1, 52);
    lemma_whole_form(n);
    lemma_spread(whole(n));
    lemma_times_one(whole(n), whole(1));
}

} // verus!
