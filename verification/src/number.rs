//! Double-precision numbers with infinities and a not-a-number.
//!
//! A `Number` is what a double-precision value holds, except that zero has no
//! sign. The operations are total. Rounding a result with `short` gives what
//! the same operation gives on single-precision operands: a sum, difference,
//! product, quotient or square root that is rounded to 53 bits and then to 24
//! is the one that is rounded to 24 at once.

use crate::double::{
    half_even, lemma_below_is_not_above, lemma_not_above_transitive, lemma_not_below_itself,
    lemma_whole_form, up, whole, Double, LOW, SPAN, TOP,
};
use vstd::arithmetic::div_mod::*;
use vstd::arithmetic::power2::*;
use vstd::prelude::*;

verus! {

/// What a number is.
#[derive(Clone, Copy, Debug, PartialEq, Eq, Structural)]
pub enum Class {
    Nan,
    Infinite { neg: bool },
    Finite { value: Double },
}

/// The bits that do not fit: at least `least` of them, and all below `2^lowest`.
pub open spec fn dropped(d: Double, least: int, lowest: int) -> int {
    if lowest - d.exp > least {
        lowest - d.exp
    } else {
        least
    }
}

/// `d` without its last bits, rounded half to even.
pub open spec fn shortened(d: Double, least: int, lowest: int) -> Double {
    let drop = dropped(d, least, lowest);
    let m = half_even(d.mant as int, up(drop));
    if d.mant == 0 || drop <= 0 {
        d
    } else if m == 0 {
        Double { neg: false, mant: 0, exp: 0 }
    } else {
        Double { neg: d.neg, mant: whole(m).mant, exp: (whole(m).exp + d.exp + drop) as i32 }
    }
}

/// A value that is kept if its exponent is at most `highest`.
pub open spec fn bounded(d: Double, highest: int) -> Class {
    if d.exp > highest {
        Class::Infinite { neg: d.neg }
    } else {
        Class::Finite { value: d }
    }
}

/// The double-precision number nearest to a value with 53 bits.
pub open spec fn fitted(d: Double) -> Class {
    bounded(shortened(d, 0, -1074), 971)
}

/// The single-precision number nearest to a value with 53 bits.
pub open spec fn narrowed(d: Double) -> Class {
    bounded(shortened(d, 29, -149), 75)
}

/// A value of double precision.
pub open spec fn representable(d: Double) -> bool {
    &&& d.normal()
    &&& -1126 <= d.exp <= 971
    &&& d.exp < -1074 ==> d.mant as int % up(-1074 - d.exp) == 0
}

/// A number of double precision.
#[derive(Clone, Copy, Debug)]
pub struct Number {
    class: Class,
}

/// 2^k.
fn power(k: i32) -> (r: u64)
    requires
        0 <= k <= 62,
    ensures
        r == up(k as int),
        r >= 1,
{
    proof {
        lemma2_to64();
    }
    if k == 29 {
        return 0x2000_0000;
    }
    let mut r: u64 = 1;
    let mut i: i32 = 0;
    while i < k
        invariant
            0 <= i <= k <= 62,
            r == up(i as int),
            r >= 1,
        decreases k - i,
    {
        proof {
            lemma_pow2_unfold((i + 1) as nat);
            lemma_pow2_strictly_increases((i + 1) as nat, 63);
            lemma2_to64();
            lemma2_to64_rest();
        }
        r = r * 2;
        i = i + 1;
    }
    r
}

proof fn lemma_up_adds(a: int, b: int)
    requires
        a >= 0,
        b >= 0,
    ensures
        up(a + b) == up(a) * up(b),
        up(a) >= 1,
        up(b) >= 1,
{
    lemma_pow2_adds(a as nat, b as nat);
    lemma_pow2_pos(a as nat);
    lemma_pow2_pos(b as nat);
}

/// Rounding keeps a significand within 53 bits.
pub proof fn lemma_shortened_size(mant: int, drop: int, m: int)
    requires
        0 < mant < TOP,
        0 < drop <= 54,
        m == half_even(mant, up(drop)),
        m > 0,
    ensures
        drop <= 53,
        m * up(drop) <= TOP,
        m <= TOP,
{
    lemma2_to64();
    lemma2_to64_rest();
    let u = up(drop);
    lemma_pow2_pos(drop as nat);
    lemma_fundamental_div_mod(mant, u);
    if drop == 54 {
        lemma_small_mod(mant as nat, u as nat);
        lemma_basic_div(mant, u);
    } else {
        lemma_up_adds(drop, 53 - drop);
        let v = up(53 - drop);
        let q = mant / u;
        assert(0 <= mant % u < u) by {
            lemma_mod_bound(mant, u);
        }
        assert(q < v) by (nonlinear_arith)
            requires
                u * q <= mant,
                mant < u * v,
                u > 0,
        ;
        assert(m * u <= v * u) by (nonlinear_arith)
            requires
                m <= v,
                u > 0,
        ;
        assert(u * v == v * u) by (nonlinear_arith);
        assert(m <= m * u) by (nonlinear_arith)
            requires
                u >= 1,
                m > 0,
        ;
    }
}

/// A significand that was rounded at bit `drop` has a form at most one
/// exponent above.
pub proof fn lemma_shortened_form(m: int, drop: int)
    requires
        0 < m <= TOP,
        0 < drop <= 53,
        m * up(drop) <= TOP,
    ensures
        m < TOP,
        whole(m).exp + drop <= 1,
{
    lemma2_to64();
    lemma_whole_form(m);
    lemma_up_adds(1, drop - 1);
    let h = up(drop - 1);
    assert(m * up(drop) == 2 * (m * h)) by (nonlinear_arith)
        requires
            up(drop) == 2 * h,
    ;
    assert(m * h >= m) by (nonlinear_arith)
        requires
            h >= 1,
            m > 0,
    ;
    let j = -whole(m).exp;
    if j <= drop - 2 {
        lemma_up_adds(j, drop - j);
        lemma_up_adds(2, drop - j - 2);
        let (a, b) = (up(j), up(drop - j));
        let c = up(drop - j - 2);
        assert(up(2) == 4);
        assert(b == 4 * c && c >= 1);
        assert(m * (a * b) >= 4 * (m * a)) by (nonlinear_arith)
            requires
                b >= 4,
                a >= 1,
                m > 0,
        ;
    }
}

/// A multiple of a power of two is one of each smaller power.
proof fn lemma_multiple(m: int, j: int, k: int)
    requires
        0 <= k <= j,
    ensures
        (m * up(j)) % up(k) == 0,
{
    lemma_up_adds(k, j - k);
    let (a, b) = (up(k), up(j - k));
    assert(m * (a * b) == (m * b) * a) by (nonlinear_arith);
    lemma_mod_multiples_basic(m * b, a);
}

/// Rounds off the last bits.
fn shorten(d: Double, least: i32, lowest: i32) -> (r: Double)
    requires
        d.normal(),
        -SPAN <= d.exp <= SPAN,
        least == 0 || least == 29,
        -2000 <= lowest <= 0,
    ensures
        r == shortened(d, least as int, lowest as int),
        r.normal(),
        r.mant != 0 ==> r.exp >= lowest - 52,
        r.exp <= d.exp + 1 || r.mant == 0,
        r.mant != 0 && r.exp < lowest ==> r.mant as int % up(lowest - r.exp) == 0,
{
    let drop: i32 = if lowest - d.exp > least {
        lowest - d.exp
    } else {
        least
    };
    if d.mant == 0 || drop <= 0 {
        return d;
    }
    if drop >= 55 {
        proof {
            lemma_pow2_strictly_increases(54, drop as nat);
            lemma2_to64();
            lemma2_to64_rest();
            lemma_small_mod(d.mant as nat, up(drop as int) as nat);
            lemma_basic_div(d.mant as int, up(drop as int));
        }
        return Double { neg: false, mant: 0, exp: 0 };
    }
    let unit: u64 = power(drop);
    let q: u64 = d.mant / unit;
    let rest: u64 = d.mant % unit;
    let m: u64 = if 2 * (rest as u128) < unit as u128 || (2 * (rest as u128) == unit as u128 && q % 2 == 0) {
        q
    } else {
        q + 1
    };
    if m == 0 {
        return Double { neg: false, mant: 0, exp: 0 };
    }
    proof {
        lemma_shortened_size(d.mant as int, drop as int, m as int);
        lemma_shortened_form(m as int, drop as int);
        lemma_whole_form(m as int);
        let j = -whole(m as int).exp;
        if j >= d.exp + drop - lowest {
            lemma_multiple(m as int, j, j - (d.exp + drop - lowest));
        }
    }
    if drop == 29 && m < 0x100_0000 {
        proof {
            lemma2_to64();
            assert(unit == 0x2000_0000);
            assert(q == d.mant / 0x2000_0000);
            crate::double::lemma_whole_exact(m as int, 29);
        }
        return Double { neg: d.neg, mant: m * 0x2000_0000, exp: d.exp };
    }
    let w = Double::from_int(m as i64);
    let r = Double { neg: d.neg, mant: w.mant, exp: w.exp + d.exp + drop };
    r
}

/// The negative of a class.
pub open spec fn turned(c: Class) -> Class {
    match c {
        Class::Nan => Class::Nan,
        Class::Infinite { neg } => Class::Infinite { neg: !neg },
        Class::Finite { value } => Class::Finite { value: value.spec_negated() },
    }
}

/// The sum of two classes.
pub open spec fn added(a: Class, b: Class) -> Class {
    match (a, b) {
        (Class::Finite { value: x }, Class::Finite { value: y }) => fitted(x.spec_plus(y)),
        (Class::Infinite { neg: s }, Class::Infinite { neg: t }) => if s == t {
            a
        } else {
            Class::Nan
        },
        (Class::Infinite { .. }, Class::Finite { .. }) => a,
        (Class::Finite { .. }, Class::Infinite { .. }) => b,
        _ => Class::Nan,
    }
}

/// The product of two classes.
pub open spec fn multiplied(a: Class, b: Class) -> Class {
    match (a, b) {
        (Class::Finite { value: x }, Class::Finite { value: y }) => fitted(x.spec_times(y)),
        (Class::Infinite { neg: s }, Class::Infinite { neg: t }) => Class::Infinite {
            neg: s != t,
        },
        (Class::Infinite { neg }, Class::Finite { value }) => if value.mant == 0 {
            Class::Nan
        } else {
            Class::Infinite { neg: neg != value.neg }
        },
        (Class::Finite { value }, Class::Infinite { neg }) => if value.mant == 0 {
            Class::Nan
        } else {
            Class::Infinite { neg: neg != value.neg }
        },
        _ => Class::Nan,
    }
}

/// The quotient of two classes.
pub open spec fn divided(a: Class, b: Class) -> Class {
    match (a, b) {
        (Class::Finite { value: x }, Class::Finite { value: y }) => if y.mant != 0 {
            fitted(x.spec_over(y))
        } else if x.mant != 0 {
            Class::Infinite { neg: x.neg }
        } else {
            Class::Nan
        },
        (Class::Infinite { neg }, Class::Finite { value }) => Class::Infinite {
            neg: neg != value.neg,
        },
        (Class::Finite { .. }, Class::Infinite { .. }) => Class::Finite {
            value: Double { neg: false, mant: 0, exp: 0 },
        },
        _ => Class::Nan,
    }
}

/// The first class is below the second.
pub open spec fn precedes(a: Class, b: Class) -> bool {
    match (a, b) {
        (Class::Finite { value: x }, Class::Finite { value: y }) => x.spec_lt(y),
        (Class::Infinite { neg: s }, Class::Infinite { neg: t }) => s && !t,
        (Class::Infinite { neg }, Class::Finite { .. }) => neg,
        (Class::Finite { .. }, Class::Infinite { neg }) => !neg,
        _ => false,
    }
}

/// The square root of a class.
pub open spec fn rooted(a: Class) -> Class {
    match a {
        Class::Finite { value } => if value.neg {
            Class::Nan
        } else {
            fitted(value.spec_sqrt())
        },
        Class::Infinite { neg } => if neg {
            Class::Nan
        } else {
            a
        },
        Class::Nan => Class::Nan,
    }
}

/// The largest integer not above a finite value, as a value.
pub open spec fn lowered(d: Double) -> Double {
    if d.exp >= 0 {
        d
    } else {
        whole(d.signed() / up(-d.exp))
    }
}

/// What 64 bits stand for in the interchange format: a sign, eleven bits of
/// exponent and 52 bits of significand.
pub open spec fn encoded_class(bits: u64) -> Class {
    let neg = bits >= 0x8000_0000_0000_0000;
    let e = (bits / LOW) as int % 0x800;
    let f = (bits % LOW) as int;
    if e == 0x7ff {
        if f == 0 {
            Class::Infinite { neg }
        } else {
            Class::Nan
        }
    } else if e != 0 {
        Class::Finite { value: Double { neg, mant: (LOW + f) as u64, exp: (e - 1075) as i32 } }
    } else if f != 0 {
        Class::Finite {
            value: Double { neg, mant: whole(f).mant, exp: (whole(f).exp - 1074) as i32 },
        }
    } else {
        Class::Finite { value: Double { neg: false, mant: 0, exp: 0 } }
    }
}

fn fit(d: Double) -> (r: Number)
    requires
        d.wf(),
    ensures
        r.is(fitted(d)),
{
    proof {
        crate::double::lemma_spread(d);
    }
    let s = shorten(d, 0, -1074);
    if s.exp > 971 {
        Number { class: Class::Infinite { neg: s.neg } }
    } else {
        Number { class: Class::Finite { value: s } }
    }
}

impl Number {
    #[verifier::type_invariant]
    spec fn held(self) -> bool {
        self.class matches Class::Finite { value } ==> representable(value)
    }

    /// What the number is.
    pub closed spec fn kind(self) -> Class {
        self.class
    }

    /// The value of a finite number.
    pub fn finite(self) -> (r: Option<Double>)
        ensures
            match self.kind() {
                Class::Finite { value } => r == Some(value),
                _ => r is None,
            },
            r matches Some(d) ==> d.wf() && d.spread() <= 1200,
    {
        proof {
            use_type_invariant(&self);
        }
        match self.class {
            Class::Finite { value } => {
                proof {
                    lemma_accepted(value);
                }
                Some(value)
            },
            _ => None,
        }
    }

    pub fn class_of(self) -> (c: Class)
        ensures
            c == self.kind(),
    {
        self.class
    }

    /// The number is of this class.
    pub open spec fn is(self, c: Class) -> bool {
        self.kind() == c
    }

    pub closed spec fn spec_int(v: int) -> Number {
        Number { class: Class::Finite { value: whole(v) } }
    }

    pub closed spec fn spec_ratio(p: int, q: int) -> Number {
        Number { class: fitted(crate::double::ratio(p, q)) }
    }

    pub closed spec fn spec_bits(bits: u64) -> Number {
        Number { class: encoded_class(bits) }
    }

    pub closed spec fn spec_plus(self, other: Number) -> Number {
        Number { class: added(self.class, other.class) }
    }

    pub closed spec fn spec_minus(self, other: Number) -> Number {
        Number { class: added(self.class, turned(other.class)) }
    }

    pub closed spec fn spec_times(self, other: Number) -> Number {
        Number { class: multiplied(self.class, other.class) }
    }

    pub closed spec fn spec_over(self, other: Number) -> Number {
        Number { class: divided(self.class, other.class) }
    }

    pub closed spec fn spec_lt(self, other: Number) -> bool {
        precedes(self.class, other.class)
    }

    /// Not above; false for a not-a-number on either side.
    pub open spec fn spec_le(self, other: Number) -> bool {
        &&& self.kind() != Class::Nan
        &&& other.kind() != Class::Nan
        &&& !other.spec_lt(self)
    }

    pub closed spec fn spec_sqrt(self) -> Number {
        Number { class: rooted(self.class) }
    }

    pub closed spec fn spec_abs(self) -> Number {
        match self.class {
            Class::Nan => self,
            Class::Infinite { .. } => Number { class: Class::Infinite { neg: false } },
            Class::Finite { value } => Number { class: Class::Finite { value: value.spec_abs() } },
        }
    }

    /// The larger of two numbers; of a number and a not-a-number the number.
    pub closed spec fn spec_max(self, other: Number) -> Number {
        if self.class == Class::Nan || self.spec_lt(other) {
            other
        } else {
            self
        }
    }

    /// The smaller of two numbers; of a number and a not-a-number the number.
    pub closed spec fn spec_min(self, other: Number) -> Number {
        if self.class == Class::Nan || other.spec_lt(self) {
            other
        } else {
            self
        }
    }

    /// The number moved into the range from `low` to `high`.
    pub open spec fn spec_clamp(self, low: Number, high: Number) -> Number {
        if self.spec_lt(low) {
            low
        } else if high.spec_lt(self) {
            high
        } else {
            self
        }
    }

    /// The nearest number of single precision.
    pub closed spec fn spec_short(self) -> Number {
        match self.class {
            Class::Finite { value } => Number { class: narrowed(value) },
            _ => self,
        }
    }

    pub closed spec fn spec_floor(self) -> Number {
        match self.class {
            Class::Finite { value } => Number { class: fitted(lowered(value)) },
            _ => self,
        }
    }

    /// The integer part within 64 signed bits; zero for a not-a-number.
    pub closed spec fn spec_trunc(self) -> int {
        match self.class {
            Class::Finite { value } => value.spec_trunc(),
            Class::Infinite { neg } => if neg {
                -0x8000_0000_0000_0000
            } else {
                0x7fff_ffff_ffff_ffff
            },
            Class::Nan => 0,
        }
    }

    /// The nearest integer within 64 signed bits, halves away from zero; zero
    /// for a not-a-number.
    pub closed spec fn spec_round(self) -> int {
        match self.class {
            Class::Finite { value } => value.spec_round(),
            Class::Infinite { neg } => if neg {
                -0x8000_0000_0000_0000
            } else {
                0x7fff_ffff_ffff_ffff
            },
            Class::Nan => 0,
        }
    }

    pub fn from_int(v: i64) -> (r: Number)
        ensures
            r == Number::spec_int(v as int),
    {
        let value = Double::from_int(v);
        proof {
            crate::double::lemma_spread(value);
        }
        Number { class: Class::Finite { value } }
    }

    pub fn from_count(v: usize) -> (r: Number)
        ensures
            r == Number::spec_int(v as int),
    {
        let value = Double::from_count(v);
        proof {
            crate::double::lemma_spread(value);
        }
        Number { class: Class::Finite { value } }
    }

    pub closed spec fn spec_double(d: Double) -> Number {
        Number { class: fitted(d) }
    }

    pub fn from_double(d: Double) -> (r: Number)
        requires
            d.wf(),
        ensures
            r == Number::spec_double(d),
    {
        fit(d)
    }

    /// The decimal constant `p / q`.
    pub fn decimal(p: u32, q: u32) -> (r: Number)
        requires
            q > 0,
        ensures
            r == Number::spec_ratio(p as int, q as int),
    {
        fit(Double::decimal(p, q))
    }

    pub fn negated(self) -> (r: Number)
        ensures
            r.kind() == turned(self.kind()),
    {
        proof {
            use_type_invariant(&self);
        }
        match self.class {
            Class::Nan => self,
            Class::Infinite { neg } => Number { class: Class::Infinite { neg: !neg } },
            Class::Finite { value } => Number { class: Class::Finite { value: value.negated() } },
        }
    }

    pub fn plus(self, other: Number) -> (r: Number)
        ensures
            r == self.spec_plus(other),
    {
        proof {
            use_type_invariant(&self);
            use_type_invariant(&other);
        }
        match (self.class, other.class) {
            (Class::Finite { value: x }, Class::Finite { value: y }) => {
                proof {
                    lemma_accepted(x);
                    lemma_accepted(y);
                }
                fit(x.plus(y))
            },
            (Class::Infinite { neg: s }, Class::Infinite { neg: t }) => if s == t {
                self
            } else {
                Number { class: Class::Nan }
            },
            (Class::Infinite { .. }, Class::Finite { .. }) => self,
            (Class::Finite { .. }, Class::Infinite { .. }) => other,
            _ => Number { class: Class::Nan },
        }
    }

    pub fn minus(self, other: Number) -> (r: Number)
        ensures
            r == self.spec_minus(other),
    {
        self.plus(other.negated())
    }

    pub fn times(self, other: Number) -> (r: Number)
        ensures
            r == self.spec_times(other),
    {
        proof {
            use_type_invariant(&self);
            use_type_invariant(&other);
        }
        match (self.class, other.class) {
            (Class::Finite { value: x }, Class::Finite { value: y }) => {
                proof {
                    lemma_accepted(x);
                    lemma_accepted(y);
                }
                fit(x.times(y))
            },
            (Class::Infinite { neg: s }, Class::Infinite { neg: t }) => Number {
                class: Class::Infinite { neg: s != t },
            },
            (Class::Infinite { neg }, Class::Finite { value }) => if value.mant == 0 {
                Number { class: Class::Nan }
            } else {
                Number { class: Class::Infinite { neg: neg != value.neg } }
            },
            (Class::Finite { value }, Class::Infinite { neg }) => if value.mant == 0 {
                Number { class: Class::Nan }
            } else {
                Number { class: Class::Infinite { neg: neg != value.neg } }
            },
            _ => Number { class: Class::Nan },
        }
    }

    /// The quotient; a number over zero is infinite.
    pub fn over(self, other: Number) -> (r: Number)
        ensures
            r == self.spec_over(other),
    {
        proof {
            use_type_invariant(&self);
            use_type_invariant(&other);
        }
        match (self.class, other.class) {
            (Class::Finite { value: x }, Class::Finite { value: y }) => {
                proof {
                    lemma_accepted(x);
                    lemma_accepted(y);
                }
                if y.mant != 0 {
                    fit(x.over(y))
                } else if x.mant != 0 {
                    Number { class: Class::Infinite { neg: x.neg } }
                } else {
                    Number { class: Class::Nan }
                }
            },
            (Class::Infinite { neg }, Class::Finite { value }) => Number {
                class: Class::Infinite { neg: neg != value.neg },
            },
            (Class::Finite { .. }, Class::Infinite { .. }) => Number {
                class: Class::Finite { value: Double { neg: false, mant: 0, exp: 0 } },
            },
            _ => Number { class: Class::Nan },
        }
    }

    pub fn less(self, other: Number) -> (b: bool)
        ensures
            b == self.spec_lt(other),
    {
        proof {
            use_type_invariant(&self);
            use_type_invariant(&other);
        }
        match (self.class, other.class) {
            (Class::Finite { value: x }, Class::Finite { value: y }) => {
                proof {
                    lemma_accepted(x);
                    lemma_accepted(y);
                }
                x.less(y)
            },
            (Class::Infinite { neg: s }, Class::Infinite { neg: t }) => s && !t,
            (Class::Infinite { neg }, Class::Finite { .. }) => neg,
            (Class::Finite { .. }, Class::Infinite { neg }) => !neg,
            _ => false,
        }
    }

    pub fn at_most(self, other: Number) -> (b: bool)
        ensures
            b == self.spec_le(other),
    {
        !self.is_nan() && !other.is_nan() && !other.less(self)
    }

    pub fn sqrt(self) -> (r: Number)
        ensures
            r == self.spec_sqrt(),
    {
        proof {
            use_type_invariant(&self);
        }
        match self.class {
            Class::Finite { value } => {
                proof {
                    lemma_accepted(value);
                }
                if value.neg {
                    Number { class: Class::Nan }
                } else {
                    fit(value.sqrt())
                }
            },
            Class::Infinite { neg } => if neg {
                Number { class: Class::Nan }
            } else {
                self
            },
            Class::Nan => self,
        }
    }

    pub fn abs(self) -> (r: Number)
        ensures
            r == self.spec_abs(),
    {
        proof {
            use_type_invariant(&self);
        }
        match self.class {
            Class::Nan => self,
            Class::Infinite { .. } => Number { class: Class::Infinite { neg: false } },
            Class::Finite { value } => Number { class: Class::Finite { value: value.abs() } },
        }
    }

    pub fn max(self, other: Number) -> (r: Number)
        ensures
            r == self.spec_max(other),
    {
        if self.is_nan() || self.less(other) {
            other
        } else {
            self
        }
    }

    pub fn min(self, other: Number) -> (r: Number)
        ensures
            r == self.spec_min(other),
    {
        if self.is_nan() || other.less(self) {
            other
        } else {
            self
        }
    }

    pub fn clamp(self, low: Number, high: Number) -> (r: Number)
        ensures
            r == self.spec_clamp(low, high),
    {
        if self.less(low) {
            low
        } else if high.less(self) {
            high
        } else {
            self
        }
    }

    pub fn is_nan(self) -> (b: bool)
        ensures
            b == (self.kind() == Class::Nan),
    {
        match self.class {
            Class::Nan => true,
            _ => false,
        }
    }

    pub fn short(self) -> (r: Number)
        ensures
            r == self.spec_short(),
    {
        proof {
            use_type_invariant(&self);
        }
        match self.class {
            Class::Finite { value } => {
                let s = shorten(value, 29, -149);
                if s.exp > 75 {
                    Number { class: Class::Infinite { neg: s.neg } }
                } else {
                    Number { class: Class::Finite { value: s } }
                }
            },
            _ => self,
        }
    }

    /// The largest integer not above the number.
    pub fn floor(self) -> (r: Number)
        ensures
            r == self.spec_floor(),
    {
        proof {
            use_type_invariant(&self);
        }
        match self.class {
            Class::Finite { value } => {
                proof {
                    lemma_accepted(value);
                }
                if value.exp >= 0 {
                    return fit(value);
                }
                fit(Double::from_int(floor_of(value)))
            },
            _ => self,
        }
    }

    pub fn trunc(self) -> (r: i64)
        ensures
            r == self.spec_trunc(),
    {
        proof {
            use_type_invariant(&self);
        }
        match self.class {
            Class::Finite { value } => {
                proof {
                    lemma_accepted(value);
                }
                value.trunc()
            },
            Class::Infinite { neg } => if neg {
                i64::MIN
            } else {
                i64::MAX
            },
            Class::Nan => 0,
        }
    }

    pub fn round(self) -> (r: i64)
        ensures
            r == self.spec_round(),
    {
        proof {
            use_type_invariant(&self);
        }
        match self.class {
            Class::Finite { value } => {
                proof {
                    lemma_accepted(value);
                }
                value.round()
            },
            Class::Infinite { neg } => if neg {
                i64::MIN
            } else {
                i64::MAX
            },
            Class::Nan => 0,
        }
    }

    /// The number that 64 bits of the interchange format stand for. The two
    /// zeros give the same number, and so do all not-a-numbers.
    pub fn from_bits(bits: u64) -> (r: Number)
        ensures
            r == Number::spec_bits(bits),
    {
        let neg: bool = bits >= 0x8000_0000_0000_0000;
        let e: u64 = (bits / LOW) % 0x800;
        let f: u64 = bits % LOW;
        if e == 0x7ff {
            if f == 0 {
                return Number { class: Class::Infinite { neg } };
            }
            return Number { class: Class::Nan };
        }
        if e != 0 {
            let value = Double { neg, mant: LOW + f, exp: e as i32 - 1075 };
            return Number { class: Class::Finite { value } };
        }
        if f != 0 {
            let w = Double::from_int(f as i64);
            proof {
                lemma_whole_form(f as int);
                let j = -w.exp;
                lemma_multiple(f as int, j, j);
            }
            let value = Double { neg, mant: w.mant, exp: w.exp - 1074 };
            return Number { class: Class::Finite { value } };
        }
        Number { class: Class::Finite { value: Double { neg: false, mant: 0, exp: 0 } } }
    }

    /// The bits of the number in the interchange format.
    pub fn to_bits(self) -> (bits: u64)
        ensures
            Number::spec_bits(bits) == self,
            self.kind() == Class::Nan ==> bits == 0x7ff8_0000_0000_0000,
            self.kind() == Number::spec_int(0).kind() ==> bits == 0,
    {
        proof {
            use_type_invariant(&self);
            reveal(crate::double::rounded);
        }
        match self.class {
            Class::Nan => 0x7ff8_0000_0000_0000,
            Class::Infinite { neg } => if neg {
                0xfff0_0000_0000_0000
            } else {
                0x7ff0_0000_0000_0000
            },
            Class::Finite { value } => {
                let sign: u64 = if value.neg {
                    0x8000_0000_0000_0000
                } else {
                    0
                };
                if value.mant == 0 {
                    return 0;
                }
                if value.exp >= -1074 {
                    let e: u64 = (value.exp + 1075) as u64;
                    let f: u64 = value.mant - LOW;
                    proof {
                        lemma_bit_fields(value.neg, e as int, f as int);
                    }
                    return sign + e * LOW + f;
                }
                let k: i32 = -1074 - value.exp;
                let unit: u64 = power(k);
                let f: u64 = value.mant / unit;
                proof {
                    lemma_small_form(value.mant as int, k as int, f as int);
                    lemma_bit_fields(value.neg, 0, f as int);
                }
                sign + f
            },
        }
    }
}

/// A number is told by its class.
pub proof fn lemma_kind()
    ensures
        forall|a: Number, b: Number| #[trigger] a.kind() == #[trigger] b.kind() ==> a == b,
{
}

proof fn lemma_bit_fields(neg: bool, e: int, f: int)
    requires
        0 <= e < 0x7ff,
        0 <= f < LOW,
    ensures
        ({
            let sign: int = if neg {
                0x8000_0000_0000_0000
            } else {
                0
            };
            let bits = sign + e * LOW + f;
            &&& 0 <= bits <= u64::MAX
            &&& (bits >= 0x8000_0000_0000_0000) == neg
            &&& (bits / LOW as int) % 0x800 == e
            &&& bits % LOW as int == f
        }),
{
}

/// A significand that is a multiple of `2^k` is the normal form of its share.
proof fn lemma_small_form(mant: int, k: int, f: int)
    requires
        LOW <= mant < TOP,
        0 < k <= 52,
        mant % up(k) == 0,
        f == mant / up(k),
    ensures
        0 < f < LOW,
        whole(f) == (Double { neg: false, mant: mant as u64, exp: (-k) as i32 }),
{
    lemma2_to64();
    lemma2_to64_rest();
    lemma_up_adds(k, 52 - k);
    lemma_up_adds(1, k - 1);
    let u = up(k);
    lemma_fundamental_div_mod(mant, u);
    assert(u * f == f * u) by (nonlinear_arith);
    assert(f > 0) by (nonlinear_arith)
        requires
            u * f == mant,
            mant > 0,
            u > 0,
    ;
    assert(2 * f <= u * f) by (nonlinear_arith)
        requires
            u >= 2,
            f > 0,
    ;
    crate::double::lemma_whole_exact(f, k);
}

proof fn lemma_accepted(d: Double)
    requires
        representable(d),
    ensures
        d.wf(),
        d.spread() <= 1200,
{
    crate::double::lemma_spread(d);
}

/// The largest integer not above a value without whole bits to spare.
fn floor_of(d: Double) -> (r: i64)
    requires
        representable(d),
        d.exp < 0,
    ensures
        r == d.signed() / up(-d.exp),
{
    let k: i32 = -d.exp;
    proof {
        lemma2_to64();
        lemma_pow2_pos(k as nat);
    }
    if k > 62 {
        proof {
            lemma_pow2_strictly_increases(62, k as nat);
            lemma2_to64_rest();
            let u = up(k as int);
            if d.neg && d.mant != 0 {
                lemma_fundamental_div_mod_converse(-(d.mant as int), u, -1, u - d.mant);
            } else {
                lemma_basic_div(d.mant as int, u);
            }
        }
        if d.neg && d.mant != 0 {
            return -1;
        }
        return 0;
    }
    let unit: u64 = power(k);
    let q: u64 = d.mant / unit;
    let rest: u64 = d.mant % unit;
    proof {
        lemma_fundamental_div_mod(d.mant as int, unit as int);
        let (u, m) = (unit as int, d.mant as int);
        assert(q <= m) by {
            lemma_div_nonincreasing(m, u);
        }
        if d.neg && rest == 0 {
            assert(-m == (-(q as int)) * u + 0) by (nonlinear_arith)
                requires
                    m == u * q + 0,
            ;
            lemma_fundamental_div_mod_converse(-m, u, -(q as int), 0);
        } else if d.neg {
            assert(-m == (-(q as int) - 1) * u + (u - rest)) by (nonlinear_arith)
                requires
                    m == u * q + rest,
            ;
            lemma_fundamental_div_mod_converse(-m, u, -(q as int) - 1, u - rest);
        }
    }
    if !d.neg {
        q as i64
    } else if rest == 0 {
        -(q as i64)
    } else {
        -(q as i64) - 1
    }
}

/// What is not above a number that is not above another is not above that one,
/// if all three are numbers.
pub proof fn lemma_number_order(a: Number, b: Number, c: Number)
    requires
        a.kind() != Class::Nan,
        b.kind() != Class::Nan,
        c.kind() != Class::Nan,
        !b.spec_lt(a),
        !c.spec_lt(b),
    ensures
        !c.spec_lt(a),
{
    match (a.kind(), b.kind(), c.kind()) {
        (
            Class::Finite { value: x },
            Class::Finite { value: y },
            Class::Finite { value: z },
        ) => {
            lemma_not_above_transitive(x, y, z);
        },
        _ => {},
    }
}

/// A number is not below itself, and what is below another is not above it.
pub proof fn lemma_number_strict(a: Number, b: Number)
    ensures
        !a.spec_lt(a),
        a.spec_lt(b) ==> !b.spec_lt(a),
{
    if let (Class::Finite { value: x }, Class::Finite { value: y }) = (a.kind(), b.kind()) {
        if x.spec_lt(y) {
            lemma_below_is_not_above(x, y);
        }
    }
    if let Class::Finite { value: x } = a.kind() {
        lemma_not_below_itself(x);
    }
}

/// A quotient of whole numbers is a number where the divisor is not zero.
pub proof fn lemma_quotient_is_number(p: int, q: int)
    requires
        0 < q <= TOP,
    ensures
        Number::spec_int(p).spec_over(Number::spec_int(q)).kind() != Class::Nan,
{
    lemma_whole_form(q);
}

/// What the operations on two numbers are, by the classes of the numbers.
pub proof fn lemma_operations(a: Number, b: Number)
    ensures
        a.spec_plus(b).kind() == added(a.kind(), b.kind()),
        a.spec_minus(b).kind() == added(a.kind(), turned(b.kind())),
        a.spec_times(b).kind() == multiplied(a.kind(), b.kind()),
        a.spec_over(b).kind() == divided(a.kind(), b.kind()),
        a.spec_lt(b) == precedes(a.kind(), b.kind()),
        a.kind() != Class::Nan ==> a.spec_max(b) == (if a.spec_lt(b) {
            b
        } else {
            a
        }),
        a.kind() != Class::Nan ==> a.spec_min(b) == (if b.spec_lt(a) {
            b
        } else {
            a
        }),
        a.kind() matches Class::Finite { value } ==> {
            &&& a.spec_short().kind() == narrowed(value)
            &&& a.spec_abs().kind() == (Class::Finite { value: value.spec_abs() })
            &&& a.spec_round() == value.spec_round()
            &&& a.spec_trunc() == value.spec_trunc()
        },
{
}

/// What whole numbers and decimal constants are.
pub proof fn lemma_constants(v: int, p: int, q: int)
    ensures
        Number::spec_int(v).kind() == (Class::Finite { value: whole(v) }),
        Number::spec_ratio(p, q).kind() == fitted(crate::double::ratio(p, q)),
{
}

} // verus!
