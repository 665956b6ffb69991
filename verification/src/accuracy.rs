//! How far rounding takes a result from the exact one.
//!
//! The value of a finite number is a real. Each operation gives a number whose
//! value is near what the operation gives on the values of its operands.

use crate::double::{
    down, half_even, in_binade, lemma_binade_unique, lemma_rounded_form, lemma_up_adds,
    lemma_up_pos, lemma_whole_form, lemma_whole_scale, ratio, rounded, up, whole, Double, LOW, TOP,
};
use crate::number::{
    dropped, fitted, lemma_constants, lemma_operations, lemma_shortened_form, lemma_shortened_size,
    narrowed, shortened, Class, Number,
};
use vstd::arithmetic::div_mod::*;
use vstd::arithmetic::power2::*;
use vstd::prelude::*;

verus! {

/// 2^k.
pub open spec fn two_to(k: int) -> real {
    if k >= 0 {
        up(k) as real
    } else {
        (1 as real) / (up(-k) as real)
    }
}

/// The value of a number.
pub open spec fn value(d: Double) -> real {
    (d.signed() as real) * two_to(d.exp as int)
}

/// The size of a real.
pub open spec fn size(x: real) -> real {
    if x < (0 as real) {
        (0 as real) - x
    } else {
        x
    }
}

/// Two reals are at most `far` apart.
pub open spec fn within(x: real, y: real, far: real) -> bool {
    y - far <= x <= y + far
}

proof fn lemma_two_to(k: int)
    ensures
        two_to(k) > (0 as real),
        two_to(k) * (down(k) as real) == up(k) as real,
{
    lemma_up_pos(k);
    lemma_up_pos(-k);
    let (a, b) = (up(k) as real, up(-k) as real);
    if k < 0 {
        assert(((1 as real) / b) * b == 1 as real && (1 as real) / b > (0 as real)) by (nonlinear_arith)
            requires
                b >= (1 as real),
        ;
    } else {
        lemma2_to64();
        assert(b == 1 as real);
        assert(a * b == a) by (nonlinear_arith)
            requires
                b == 1 as real,
        ;
    }
}

proof fn lemma_two_adds(a: int, b: int)
    ensures
        two_to(a + b) == two_to(a) * two_to(b),
{
    lemma_two_to(a);
    lemma_two_to(b);
    lemma_two_to(a + b);
    lemma_up_pos(a);
    lemma_up_pos(-a);
    lemma_up_pos(b);
    lemma_up_pos(-b);
    lemma_up_pos(a + b);
    lemma_up_pos(-a - b);
    // up(a + b) * down(a) * down(b) == up(a) * up(b) * down(a + b)
    lemma2_to64();
    if a >= 0 && b >= 0 {
        lemma_up_adds(a, b);
    } else if a < 0 && b < 0 {
        lemma_up_adds(-a, -b);
    } else if a >= 0 {
        if a + b >= 0 {
            lemma_up_adds(a + b, -b);
        } else {
            lemma_up_adds(-a - b, a);
        }
    } else {
        if a + b >= 0 {
            lemma_up_adds(a + b, -a);
        } else {
            lemma_up_adds(-a - b, b);
        }
    }
    let (ua, da, ub, db) = (up(a) as real, down(a) as real, up(b) as real, down(b) as real);
    let (uc, dc) = (up(a + b) as real, down(a + b) as real);
    assert(up(a + b) * (down(a) * down(b)) == (up(a) * up(b)) * down(a + b)) by (nonlinear_arith)
        requires
            a >= 0 && b >= 0 ==> up(a + b) == up(a) * up(b) && down(a) == 1 && down(b) == 1
                && down(a + b) == 1,
            a < 0 && b < 0 ==> down(a + b) == down(a) * down(b) && up(a) == 1 && up(b) == 1
                && up(a + b) == 1,
            a >= 0 && b < 0 && a + b >= 0 ==> up(a) == up(a + b) * down(b) && down(a) == 1 && up(b)
                == 1 && down(a + b) == 1,
            a >= 0 && b < 0 && a + b < 0 ==> down(b) == down(a + b) * up(a) && down(a) == 1 && up(b)
                == 1 && up(a + b) == 1,
            a < 0 && b >= 0 && a + b >= 0 ==> up(b) == up(a + b) * down(a) && down(b) == 1 && up(a)
                == 1 && down(a + b) == 1,
            a < 0 && b >= 0 && a + b < 0 ==> down(a) == down(a + b) * up(b) && down(b) == 1 && up(a)
                == 1 && up(a + b) == 1,
    ;
    lemma_as_real(up(a + b), down(a) * down(b));
    lemma_as_real(down(a), down(b));
    lemma_as_real(up(a) * up(b), down(a + b));
    lemma_as_real(up(a), up(b));
    let (pa, pb, pc) = (two_to(a), two_to(b), two_to(a + b));
    assert(pc == pa * pb) by (nonlinear_arith)
        requires
            pa * da == ua,
            pb * db == ub,
            pc * dc == uc,
            uc * (da * db) == (ua * ub) * dc,
            da > (0 as real),
            db > (0 as real),
            dc > (0 as real),
    ;
}

/// A product of integers is the product of them as reals.
proof fn lemma_as_real(a: int, b: int)
    ensures
        (a * b) as real == (a as real) * (b as real),
{
    assert((a * b) as real == (a as real) * (b as real)) by (nonlinear_arith);
}

/// The least error that is told of.
pub open spec fn speck() -> real {
    (1 as real) / (0x1000_0000_0000 as real)
}

/// A power of two with a negative exponent is small.
proof fn lemma_two_small(k: int)
    requires
        k <= -45,
    ensures
        (0 as real) < two_to(k) <= speck() / (2 as real),
{
    lemma2_to64();
    lemma2_to64_rest();
    lemma_two_to(k);
    lemma_up_adds(45, -45 - k);
    lemma_up_pos(-45 - k);
    let u = up(-k);
    assert(up(45) == 0x2000_0000_0000);
    assert(u >= 0x2000_0000_0000) by (nonlinear_arith)
        requires
            u == 0x2000_0000_0000 * up(-45 - k),
            up(-45 - k) >= 1,
    ;
    let ur = u as real;
    assert((1 as real) / ur <= (1 as real) / (0x2000_0000_0000 as real)) by (nonlinear_arith)
        requires
            ur >= (0x2000_0000_0000 as real),
    ;
}

/// The size of a number.
pub open spec fn extent(d: Double) -> real {
    (d.mant as real) * two_to(d.exp as int)
}

proof fn lemma_extent(d: Double)
    ensures
        extent(d) >= (0 as real),
        value(d) == (if d.neg {
            (0 as real) - extent(d)
        } else {
            extent(d)
        }),
        size(value(d)) == extent(d),
        extent(d) == (0 as real) <==> d.mant == 0,
{
    lemma_two_to(d.exp as int);
    let (m, t) = (d.mant as real, two_to(d.exp as int));
    assert(m * t >= (0 as real) && ((0 as real) - m) * t == (0 as real) - m * t && (m * t == (0
        as real) <==> m == (0 as real))) by (nonlinear_arith)
        requires
            m >= (0 as real),
            t > (0 as real),
    ;
}

/// Rounding to an integer goes at most half a step.
proof fn lemma_half_even_near(p: int, q: int)
    requires
        q > 0,
    ensures
        -q <= 2 * (half_even(p, q) * q - p) <= q,
{
    lemma_fundamental_div_mod(p, q);
    lemma_mod_bound(p, q);
    let (d, r) = (p / q, p % q);
    assert(d * q == q * d && (d + 1) * q == q * d + q) by (nonlinear_arith);
}

/// A rounded ratio is within half a unit of its last place.
proof fn lemma_rounded_near(neg: bool, p: int, q: int, e: int, k: int)
    requires
        p > 0,
        q > 0,
        in_binade(p, q, k),
        -10000 <= e + k <= 10000,
    ensures
        ({
            let exact = (p as real) / (q as real) * two_to(e);
            within(extent(rounded(neg, p, q, e)), exact, exact / (0x20_0000_0000_0000 as real))
        }),
{
    reveal(rounded);
    lemma_binade_unique(p, q, k);
    lemma_up_pos(k);
    lemma_up_pos(-k);
    let (pp, qq) = (p * down(k), q * up(k));
    assert(qq > 0 && pp > 0) by (nonlinear_arith)
        requires
            pp == p * down(k),
            qq == q * up(k),
            p > 0,
            q > 0,
            up(k) >= 1,
            down(k) >= 1,
    ;
    let m = half_even(pp, qq);
    lemma_half_even_near(pp, qq);
    let r = rounded(neg, p, q, e);
    let t = two_to(e + k);
    lemma_two_adds(e, k);
    lemma_two_to(e);
    lemma_two_to(k);
    lemma_two_to(e + k);
    lemma_fundamental_div_mod(pp, qq);
    lemma_mod_bound(pp, qq);
    let d = pp / qq;
    assert(LOW <= d < TOP) by (nonlinear_arith)
        requires
            LOW * qq <= pp < TOP * qq,
            pp == qq * d + pp % qq,
            0 <= pp % qq < qq,
    ;
    assert(extent(r) == (m as real) * t) by {
        if m == TOP {
            lemma_two_adds(e + k, 1);
            lemma2_to64();
            let lo = LOW as real;
            assert(lo * (t * (2 as real)) == (lo * (2 as real)) * t) by (nonlinear_arith);
        }
    }
    let (pr, qr, ppr, qqr) = (p as real, q as real, pp as real, qq as real);
    lemma_as_real(p, down(k));
    lemma_as_real(q, up(k));
    lemma_as_real(m, qq);
    lemma_as_real(LOW as int, qq);
    let (dk, uk, tk, te) = (down(k) as real, up(k) as real, two_to(k), two_to(e));
    let (x, mr) = (ppr / qqr, m as real);
    assert(ppr == x * qqr) by (nonlinear_arith)
        requires
            x == ppr / qqr,
            qqr > (0 as real),
    ;
    let y = pr / qr;
    assert(pr == y * qr) by (nonlinear_arith)
        requires
            y == pr / qr,
            qr > (0 as real),
    ;
    assert(x * tk == y) by (nonlinear_arith)
        requires
            pr == y * qr,
            ppr == pr * dk,
            qqr == qr * uk,
            ppr == x * qqr,
            tk * dk == uk,
            qr > (0 as real),
            dk > (0 as real),
    ;
    let exact = y * te;
    assert(exact == x * t) by (nonlinear_arith)
        requires
            exact == y * te,
            x * tk == y,
            t == te * tk,
    ;
    let lo = LOW as real;
    assert(x >= lo && mr - x <= (1 as real) / (2 as real) && x - mr <= (1 as real) / (2 as real)) by (
    nonlinear_arith)
        requires
            ppr == x * qqr,
            qqr > (0 as real),
            lo * qqr <= ppr,
            (0 as real) - qqr <= (2 as real) * (mr * qqr - ppr),
            (2 as real) * (mr * qqr - ppr) <= qqr,
    ;
    let far = exact / (0x20_0000_0000_0000 as real);
    let v = mr * t;
    assert(exact - far <= v && v <= exact + far) by (nonlinear_arith)
        requires
            far == exact / (0x20_0000_0000_0000 as real),
            exact == x * t,
            v == mr * t,
            t > (0 as real),
            x >= (0x10_0000_0000_0000 as real),
            mr - x <= (1 as real) / (2 as real),
            x - mr <= (1 as real) / (2 as real),
    ;
}

/// A value that fills its significand has the exponent to match.
proof fn lemma_exponent_below(d: Double, k: int)
    requires
        d.normal(),
        d.mant != 0,
        extent(d) < (LOW as real) * two_to(k),
    ensures
        d.exp < k,
{
    if d.exp >= k {
        lemma_two_adds(k, d.exp - k);
        lemma_two_to(k);
        lemma_up_pos(d.exp - k);
        let (a, b, m, u) = (extent(d), two_to(k), d.mant as real, two_to(d.exp - k));
        assert(u >= (1 as real));
        assert(m * (b * u) >= (0x10_0000_0000_0000 as real) * b) by (nonlinear_arith)
            requires
                m >= (0x10_0000_0000_0000 as real),
                u >= (1 as real),
                b > (0 as real),
        ;
    }
}

/// Rounding off bits moves a number by at most a share of 2^-24, and a speck.
proof fn lemma_shortened_near(d: Double, least: int, lowest: int)
    requires
        d.normal(),
        -10000 <= d.exp <= 10000,
        least == 0 || least == 29,
        -2000 <= lowest <= -149,
    ensures
        ({
            let r = shortened(d, least, lowest);
            &&& r.normal()
            &&& r.mant != 0 ==> r.neg == d.neg
            &&& r.mant != 0 ==> lowest - 52 <= r.exp <= d.exp + 1 || (r == d && d.exp >= lowest)
            &&& within(
                extent(r),
                extent(d),
                (if least == 0 {
                    0 as real
                } else {
                    extent(d) / (0x100_0000 as real)
                }) + speck() / (2 as real),
            )
        }),
{
    let drop = dropped(d, least, lowest);
    let r = shortened(d, least, lowest);
    lemma_extent(d);
    lemma_two_small(lowest);
    lemma2_to64();
    lemma2_to64_rest();
    if d.mant == 0 || drop <= 0 {
    } else {
        let (mant, u) = (d.mant as int, up(drop));
        lemma_up_pos(drop);
        let m = half_even(mant, u);
        lemma_half_even_near(mant, u);
        if drop >= 55 {
            lemma_pow2_strictly_increases(54, drop as nat);
            lemma_small_mod(mant as nat, u as nat);
            lemma_basic_div(mant, u);
            assert(m == 0);
        }
        let t = two_to(d.exp + drop);
        lemma_two_to(d.exp + drop);
        lemma_two_to(d.exp as int);
        lemma_two_adds(d.exp as int, drop);
        if m != 0 {
            lemma_shortened_size(mant, drop, m);
            lemma_shortened_form(m, drop);
            lemma_whole_form(m);
            let x = whole(m).exp as int;
            let w = whole(m).mant as int;
            assert(x + d.exp + drop >= lowest - 52);
            lemma_two_adds(x, d.exp + drop);
            lemma_two_to(x);
            lemma_as_real(m, up(-x));
            let (mr, ur, tx, wr) = (m as real, up(-x) as real, two_to(x), w as real);
            assert(tx * ur == 1 as real) by {
                if x == 0 {
                    assert(up(0) == 1);
                }
            }
            assert(wr * (tx * t) == mr * t) by (nonlinear_arith)
                requires
                    wr == mr * ur,
                    tx * ur == 1 as real,
            ;
            assert(extent(r) == mr * t);
        } else {
            assert(extent(r) == (0 as real)) by {
                lemma_extent(r);
            }
            let mr = m as real;
            assert(mr * t == (0 as real)) by (nonlinear_arith)
                requires
                    mr == (0 as real),
            ;
        }
        lemma_as_real(m, u);
        let (mr, ur, te, a) = (m as real, u as real, two_to(d.exp as int), mant as real);
        let (x, y) = (mr * t, a * te);
        assert(y - t / (2 as real) <= x && x <= y + t / (2 as real)) by (nonlinear_arith)
            requires
                x == mr * t,
                y == a * te,
                t == te * ur,
                te > (0 as real),
                (0 as real) - ur <= (2 as real) * (mr * ur - a),
                (2 as real) * (mr * ur - a) <= ur,
        ;
        if drop == least {
            assert(u == 0x2000_0000);
            assert(t / (2 as real) <= y / (0x100_0000 as real)) by (nonlinear_arith)
                requires
                    y == a * te,
                    t == te * (0x2000_0000 as real),
                    a >= (0x10_0000_0000_0000 as real),
                    te > (0 as real),
            ;
        } else {
            assert(d.exp + drop == lowest);
        }
    }
}

/// An integer that is not small has an exponent.
proof fn lemma_large_binade(s: int) -> (k: int)
    requires
        s >= LOW,
    ensures
        k >= 0,
        in_binade(s, 1, k),
    decreases s,
{
    lemma2_to64();
    if s < TOP {
        assert(s * 1 == s);
        0
    } else {
        let j = lemma_large_binade(s / 2);
        lemma_up_adds(j, 1);
        let u = up(j);
        assert(down(j) == 1 && down(j + 1) == 1) by {
            assert(j == 0 ==> up(0) == 1);
        }
        assert(s / 2 * 1 == s / 2 && s * 1 == s && 1 * u == u && 1 * up(j + 1) == up(j + 1));
        assert(LOW * u <= s / 2 && s / 2 < TOP * u);
        assert(up(j + 1) == u * 2);
        assert(LOW * (u * 2) == 2 * (LOW * u) && TOP * (u * 2) == 2 * (TOP * u)) by (
        nonlinear_arith);
        j + 1
    }
}

/// Every positive integer has an exponent.
proof fn lemma_any_binade(s: int) -> (k: int)
    requires
        s > 0,
    ensures
        k >= -52,
        in_binade(s, 1, k),
{
    lemma2_to64();
    if s >= LOW {
        lemma_large_binade(s)
    } else {
        assert(s * up(0) == s) by (nonlinear_arith)
            requires
                up(0) == 1,
        ;
        let j = lemma_whole_scale(s, 0);
        assert(up(-j) == 1);
        assert(1 * up(-j) == 1);
        -j
    }
}

/// A number that can be calculated with: finite, in its normal form, and not at
/// the end of the range.
pub open spec fn plain(d: Double) -> bool {
    &&& d.normal()
    &&& -1200 <= d.exp <= 1000
}

/// Far below the largest number.
pub open spec fn modest(x: real) -> bool {
    size(x) <= (0x100_0000_0000 as real)
}

/// What a result is allowed to be off by in double precision.
pub open spec fn fine(exact: real) -> real {
    size(exact) / (0x20_0000_0000_0000 as real) + speck() / (2 as real)
}

proof fn lemma_fitted_near(d: Double)
    requires
        d.normal(),
        -10000 <= d.exp <= 10000,
        size(value(d)) <= (0x800_0000_0000 as real),
    ensures
        ({
            &&& fitted(d) matches Class::Finite { value: r }
            &&& plain(r)
            &&& within(value(r), value(d), speck() / (2 as real))
        }),
{
    lemma_extent(d);
    lemma2_to64();
    let r = shortened(d, 0, -1074);
    lemma_shortened_near(d, 0, -1074);
    lemma_extent(r);
    if d.mant != 0 {
        let lo = LOW as real;
        assert(two_to(0) == (1 as real));
        assert(lo * (1 as real) == lo) by (nonlinear_arith);
        lemma_exponent_below(d, 0);
    }
}

proof fn lemma_narrowed_near(d: Double)
    requires
        plain(d),
        size(value(d)) <= (0x800_0000_0000 as real),
    ensures
        ({
            &&& narrowed(d) matches Class::Finite { value: r }
            &&& plain(r)
            &&& within(
                value(r),
                value(d),
                size(value(d)) / (0x100_0000 as real) + speck() / (2 as real),
            )
        }),
{
    lemma_extent(d);
    lemma2_to64();
    let r = shortened(d, 29, -149);
    lemma_shortened_near(d, 29, -149);
    lemma_extent(r);
    if d.mant != 0 {
        let lo = LOW as real;
        assert(two_to(0) == (1 as real));
        assert(lo * (1 as real) == lo) by (nonlinear_arith);
        lemma_exponent_below(d, 0);
    }
}

proof fn lemma_zero()
    ensures
        ({
            let z = Double { neg: false, mant: 0, exp: 0 };
            plain(z) && value(z) == (0 as real)
        }),
{
    lemma_extent(Double { neg: false, mant: 0, exp: 0 });
}

/// A product is within half a unit of its last place.
pub proof fn lemma_times_near(a: Double, b: Double)
    requires
        plain(a),
        plain(b),
    ensures
        ({
            let (r, exact) = (a.spec_times(b), value(a) * value(b));
            &&& r.normal()
            &&& -10000 <= r.exp <= 10000
            &&& within(value(r), exact, size(exact) / (0x20_0000_0000_0000 as real))
        }),
{
    reveal(Double::spec_times);
    let r = a.spec_times(b);
    let (p, e) = (a.mant * b.mant, a.exp + b.exp);
    lemma_extent(a);
    lemma_extent(b);
    lemma_extent(r);
    let (x, y) = (extent(a), extent(b));
    let exact = value(a) * value(b);
    assert(size(exact) == x * y && (exact == x * y || exact == (0 as real) - x * y)) by (
    nonlinear_arith)
        requires
            x >= (0 as real),
            y >= (0 as real),
            exact == value(a) * value(b),
            value(a) == x || value(a) == (0 as real) - x,
            value(b) == y || value(b) == (0 as real) - y,
            size(exact) == exact || size(exact) == (0 as real) - exact,
            size(exact) >= (0 as real),
    ;
    if a.mant == 0 || b.mant == 0 {
        assert(p == 0) by (nonlinear_arith)
            requires
                p == a.mant * b.mant,
                a.mant == 0 || b.mant == 0,
        ;
        reveal(rounded);
        assert(x * y == (0 as real)) by (nonlinear_arith)
            requires
                x == (0 as real) || y == (0 as real),
        ;
        lemma_zero();
    } else {
        lemma2_to64();
        lemma2_to64_rest();
        assert(LOW * LOW <= p && p < TOP * TOP && p > 0) by (nonlinear_arith)
            requires
                LOW <= a.mant < TOP,
                LOW <= b.mant < TOP,
                LOW == 0x10_0000_0000_0000,
                p == a.mant * b.mant,
        ;
        let k: int = if p < LOW * TOP {
            52
        } else {
            53
        };
        assert(up(52) == LOW && up(53) == TOP);
        assert(down(k) == 1 && 1 * up(k) == up(k) && p * 1 == p);
        assert(in_binade(p, 1, k));
        lemma_rounded_form(a.neg != b.neg, p, 1, e, k);
        lemma_rounded_near(a.neg != b.neg, p, 1, e, k);
        lemma_two_adds(a.exp as int, b.exp as int);
        lemma_as_real(a.mant as int, b.mant as int);
        let (am, bm, pr) = (a.mant as real, b.mant as real, p as real);
        let (ta, tb) = (two_to(a.exp as int), two_to(b.exp as int));
        assert(pr / (1 as real) * (ta * tb) == (am * ta) * (bm * tb)) by (nonlinear_arith)
            requires
                pr == am * bm,
        ;
        lemma_sign_product(value(a), value(b), x, y, a.neg, b.neg);
    }
}

proof fn lemma_sign_product(v: real, w: real, x: real, y: real, s: bool, t: bool)
    requires
        v == (if s {
            (0 as real) - x
        } else {
            x
        }),
        w == (if t {
            (0 as real) - y
        } else {
            y
        }),
    ensures
        v * w == (if s != t {
            (0 as real) - x * y
        } else {
            x * y
        }),
{
    assert(((0 as real) - x) * ((0 as real) - y) == x * y && ((0 as real) - x) * y == (0 as real) - x
        * y && x * ((0 as real) - y) == (0 as real) - x * y) by (nonlinear_arith);
}

/// A quotient is within half a unit of its last place.
pub proof fn lemma_over_near(a: Double, b: Double)
    requires
        plain(a),
        plain(b),
        b.mant != 0,
    ensures
        ({
            let (r, exact) = (a.spec_over(b), value(a) / value(b));
            &&& r.normal()
            &&& -10000 <= r.exp <= 10000
            &&& within(value(r), exact, size(exact) / (0x20_0000_0000_0000 as real))
        }),
{
    reveal(Double::spec_over);
    let r = a.spec_over(b);
    let (p, q, e) = (a.mant as int, b.mant as int, a.exp - b.exp);
    lemma_extent(a);
    lemma_extent(b);
    lemma_extent(r);
    let (x, y) = (extent(a), extent(b));
    let (v, w) = (value(a), value(b));
    let exact = v / w;
    let z = x / y;
    assert(z >= (0 as real) && x == z * y) by (nonlinear_arith)
        requires
            x >= (0 as real),
            y > (0 as real),
            z == x / y,
    ;
    assert(exact == (if a.neg != b.neg {
        (0 as real) - z
    } else {
        z
    })) by {
        if a.neg != b.neg {
            assert(v / w == (0 as real) - x / y) by (nonlinear_arith)
                requires
                    y > (0 as real),
                    (v == x && w == (0 as real) - y) || (v == (0 as real) - x && w == y),
            ;
        } else {
            assert(v / w == x / y) by (nonlinear_arith)
                requires
                    y > (0 as real),
                    (v == x && w == y) || (v == (0 as real) - x && w == (0 as real) - y),
            ;
        }
    }
    if p == 0 {
        reveal(rounded);
        assert(z == (0 as real)) by (nonlinear_arith)
            requires
                z == x / y,
                x == (0 as real),
                y > (0 as real),
        ;
        lemma_zero();
    } else {
        lemma2_to64();
        lemma2_to64_rest();
        let k: int = if p < q {
            -53
        } else {
            -52
        };
        assert(up(52) == LOW && up(53) == TOP);
        assert(up(k) == 1 && q * up(k) == q) by (nonlinear_arith)
            requires
                up(k) == 1,
        ;
        assert(down(k) == up(-k));
        assert(LOW * q <= p * down(k) && p * down(k) < TOP * q) by (nonlinear_arith)
            requires
                LOW <= p < TOP,
                LOW <= q < TOP,
                TOP == 2 * LOW,
                p < q ==> down(k) == TOP,
                p >= q ==> down(k) == LOW,
        ;
        assert(in_binade(p, q, k));
        lemma_rounded_form(a.neg != b.neg, p, q, e, k);
        lemma_rounded_near(a.neg != b.neg, p, q, e, k);
        lemma_two_adds(e, b.exp as int);
        lemma_two_to(b.exp as int);
        let (am, bm) = (p as real, q as real);
        let (te, tb) = (two_to(e), two_to(b.exp as int));
        assert(two_to(a.exp as int) == te * tb);
        let f = am / bm;
        assert(am == f * bm) by (nonlinear_arith)
            requires
                f == am / bm,
                bm > (0 as real),
        ;
        assert(f * te == z) by (nonlinear_arith)
            requires
                x == am * (te * tb),
                y == bm * tb,
                am == f * bm,
                x == z * y,
                y > (0 as real),
        ;
    }
}

proof fn lemma_at(d: Double, e: int)
    requires
        e <= d.exp,
    ensures
        (d.at(e) as real) * two_to(e) == value(d),
{
    lemma_two_adds(d.exp - e, e);
    lemma_as_real(d.signed(), up(d.exp - e));
    let (m, u, t) = (d.signed() as real, two_to(d.exp - e), two_to(e));
    assert((m * u) * t == m * (u * t)) by (nonlinear_arith);
}

/// A sum is within half a unit of its last place.
pub proof fn lemma_plus_near(a: Double, b: Double)
    requires
        plain(a),
        plain(b),
        modest(value(a)),
        modest(value(b)),
    ensures
        ({
            let (r, exact) = (a.spec_plus(b), value(a) + value(b));
            &&& r.normal()
            &&& -10000 <= r.exp <= 10000
            &&& within(value(r), exact, size(exact) / (0x20_0000_0000_0000 as real))
        }),
{
    reveal(Double::spec_plus);
    let r = a.spec_plus(b);
    let e = a.low_exp(b);
    let s = a.at(e) + b.at(e);
    lemma_at(a, e);
    lemma_at(b, e);
    lemma_extent(r);
    lemma_two_to(e);
    let (sr, te, exact) = (s as real, two_to(e), value(a) + value(b));
    let (x, y) = (a.at(e) as real, b.at(e) as real);
    assert(exact == sr * te) by (nonlinear_arith)
        requires
            sr == x + y,
            exact == x * te + y * te,
    ;
    if s == 0 {
        reveal(rounded);
        assert(exact == (0 as real)) by (nonlinear_arith)
            requires
                exact == sr * te,
                sr == (0 as real),
        ;
        lemma_zero();
    } else {
        let p = if s < 0 {
            -s
        } else {
            s
        };
        let pr = p as real;
        let k = lemma_any_binade(p);
        assert(size(exact) == pr * te && pr / (1 as real) * te == pr * te && (s < 0 ==> exact == (0
            as real) - pr * te) && (s > 0 ==> exact == pr * te)) by (nonlinear_arith)
            requires
                exact == sr * te,
                te > (0 as real),
                s < 0 ==> pr == (0 as real) - sr,
                s > 0 ==> pr == sr,
                pr > (0 as real),
                s != 0,
                size(exact) == (if exact < (0 as real) {
                    (0 as real) - exact
                } else {
                    exact
                }),
        ;
        if e + k > 0 {
            // the sum would be too large
            lemma_two_adds(e, k);
            lemma_two_to(k);
            lemma_up_pos(k);
            lemma_up_pos(-k);
            lemma_as_real(p, down(k));
            lemma_as_real(LOW as int, 1 * up(k));
            let (dk, uk, tk) = (down(k) as real, up(k) as real, two_to(k));
            let lo = LOW as real;
            assert(pr >= lo * tk) by (nonlinear_arith)
                requires
                    lo * uk <= pr * dk,
                    tk * dk == uk,
                    dk > (0 as real),
            ;
            lemma_up_pos(e + k);
            assert(te * tk >= (1 as real));
            assert(pr * te >= lo) by (nonlinear_arith)
                requires
                    pr >= lo * tk,
                    te > (0 as real),
                    te * tk >= (1 as real),
                    lo > (0 as real),
            ;
            assert(false);
        }
        lemma_rounded_form(s < 0, p, 1, e, k);
        lemma_rounded_near(s < 0, p, 1, e, k);
    }
}

/// The value of a number, zero for one that is not finite.
pub open spec fn amount(n: Number) -> real {
    match n.kind() {
        Class::Finite { value: d } => value(d),
        _ => 0 as real,
    }
}

/// A finite number that can be calculated with.
pub open spec fn sound(n: Number) -> bool {
    n.kind() matches Class::Finite { value: d } && plain(d)
}

/// A single-precision result is near the exact one.
pub open spec fn close(x: real, exact: real) -> bool {
    within(x, exact, size(exact) / (0x80_0000 as real) + speck() * (2 as real))
}

/// Single precision stays close.
pub proof fn lemma_short_close(n: Number)
    requires
        sound(n),
        modest(amount(n)),
    ensures
        sound(n.spec_short()),
        within(
            amount(n.spec_short()),
            amount(n),
            size(amount(n)) / (0x100_0000 as real) + speck() / (2 as real),
        ),
{
    lemma_operations(n, n);
    lemma_narrowed_near(n.kind()->value);
}

/// Single precision keeps the sign.
pub proof fn lemma_short_sign(n: Number)
    requires
        sound(n),
        modest(amount(n)),
        amount(n) >= (0 as real),
    ensures
        amount(n.spec_short()) >= (0 as real),
{
    lemma_operations(n, n);
    let d = n.kind()->value;
    let r = shortened(d, 29, -149);
    lemma_shortened_near(d, 29, -149);
    lemma_narrowed_near(d);
    lemma_extent(d);
    lemma_extent(r);
}

proof fn lemma_then_short(n: Number, exact: real)
    requires
        sound(n),
        modest(exact),
        within(
            amount(n),
            exact,
            size(exact) / (0x20_0000_0000_0000 as real) + speck() / (2 as real),
        ),
    ensures
        sound(n.spec_short()),
        close(amount(n.spec_short()), exact),
{
    let x = amount(n);
    assert(size(x) <= (0x800_0000_0000 as real));
    lemma_operations(n, n);
    lemma_narrowed_near(n.kind()->value);
}

/// A sum in double precision, and in single.
pub proof fn lemma_sum_close(a: Number, b: Number)
    requires
        sound(a),
        sound(b),
        modest(amount(a)),
        modest(amount(b)),
        modest(amount(a) + amount(b)),
    ensures
        sound(a.spec_plus(b)),
        within(amount(a.spec_plus(b)), amount(a) + amount(b), fine(amount(a) + amount(b))),
        sound(a.spec_plus(b).spec_short()),
        close(amount(a.spec_plus(b).spec_short()), amount(a) + amount(b)),
{
    lemma_operations(a, b);
    let (x, y) = (a.kind()->value, b.kind()->value);
    lemma_plus_near(x, y);
    lemma_fitted_near(x.spec_plus(y));
    lemma_then_short(a.spec_plus(b), amount(a) + amount(b));
}

/// A difference in double precision, and in single.
pub proof fn lemma_difference_close(a: Number, b: Number)
    requires
        sound(a),
        sound(b),
        modest(amount(a)),
        modest(amount(b)),
        modest(amount(a) - amount(b)),
    ensures
        sound(a.spec_minus(b)),
        within(amount(a.spec_minus(b)), amount(a) - amount(b), fine(amount(a) - amount(b))),
        sound(a.spec_minus(b).spec_short()),
        close(amount(a.spec_minus(b).spec_short()), amount(a) - amount(b)),
{
    lemma_operations(a, b);
    let (x, y) = (a.kind()->value, b.kind()->value.spec_negated());
    lemma_extent(b.kind()->value);
    lemma_extent(y);
    assert(value(y) == (0 as real) - amount(b));
    lemma_plus_near(x, y);
    lemma_fitted_near(x.spec_plus(y));
    lemma_then_short(a.spec_minus(b), amount(a) - amount(b));
}

/// A product in double precision, and in single.
pub proof fn lemma_product_close(a: Number, b: Number)
    requires
        sound(a),
        sound(b),
        modest(amount(a) * amount(b)),
    ensures
        sound(a.spec_times(b)),
        within(amount(a.spec_times(b)), amount(a) * amount(b), fine(amount(a) * amount(b))),
        sound(a.spec_times(b).spec_short()),
        close(amount(a.spec_times(b).spec_short()), amount(a) * amount(b)),
{
    lemma_operations(a, b);
    let (x, y) = (a.kind()->value, b.kind()->value);
    lemma_times_near(x, y);
    lemma_fitted_near(x.spec_times(y));
    lemma_then_short(a.spec_times(b), amount(a) * amount(b));
}

/// A quotient in double precision, and in single.
pub proof fn lemma_quotient_close(a: Number, b: Number)
    requires
        sound(a),
        sound(b),
        amount(b) != (0 as real),
        modest(amount(a) / amount(b)),
    ensures
        sound(a.spec_over(b)),
        within(amount(a.spec_over(b)), amount(a) / amount(b), fine(amount(a) / amount(b))),
        sound(a.spec_over(b).spec_short()),
        close(amount(a.spec_over(b).spec_short()), amount(a) / amount(b)),
{
    lemma_operations(a, b);
    let (x, y) = (a.kind()->value, b.kind()->value);
    lemma_extent(y);
    lemma_over_near(x, y);
    lemma_fitted_near(x.spec_over(y));
    lemma_then_short(a.spec_over(b), amount(a) / amount(b));
}

/// Numbers are in the order of their values.
pub proof fn lemma_order_by_amount(a: Number, b: Number)
    requires
        sound(a),
        sound(b),
    ensures
        a.spec_lt(b) <==> amount(a) < amount(b),
        a.spec_le(b) <==> amount(a) <= amount(b),
{
    lemma_operations(a, b);
    lemma_operations(b, a);
    lemma_less_by_value(a.kind()->value, b.kind()->value);
    lemma_less_by_value(b.kind()->value, a.kind()->value);
}

/// The order is that of the values.
pub proof fn lemma_less_by_value(x: Double, y: Double)
    ensures
        x.spec_lt(y) <==> value(x) < value(y),
{
    reveal(Double::spec_lt);
    let e = x.low_exp(y);
    lemma_at(x, e);
    lemma_at(y, e);
    lemma_two_to(e);
    let (a, b, t) = (x.at(e) as real, y.at(e) as real, two_to(e));
    assert(a * t < b * t <==> a < b) by (nonlinear_arith)
        requires
            t > (0 as real),
    ;
}

/// A number moved into a range has the value moved into the range.
pub proof fn lemma_clamp_by_amount(n: Number, low: Number, high: Number)
    requires
        sound(n),
        sound(low),
        sound(high),
    ensures
        sound(n.spec_clamp(low, high)),
        amount(n.spec_clamp(low, high)) == (if amount(n) < amount(low) {
            amount(low)
        } else if amount(high) < amount(n) {
            amount(high)
        } else {
            amount(n)
        }),
{
    lemma_order_by_amount(n, low);
    lemma_order_by_amount(high, n);
}

/// The larger number has the larger value.
pub proof fn lemma_max_by_amount(a: Number, b: Number)
    requires
        sound(a),
        sound(b),
    ensures
        sound(a.spec_max(b)),
        amount(a.spec_max(b)) == (if amount(a) < amount(b) {
            amount(b)
        } else {
            amount(a)
        }),
{
    lemma_operations(a, b);
    lemma_order_by_amount(a, b);
}

/// Whole numbers are exact.
pub proof fn lemma_int_amount(v: int)
    requires
        -0x20_0000_0000_0000 < v < 0x20_0000_0000_0000,
    ensures
        sound(Number::spec_int(v)),
        amount(Number::spec_int(v)) == v as real,
{
    lemma_constants(v, 0, 1);
    let d = whole(v);
    lemma_extent(d);
    if v == 0 {
        reveal(rounded);
        lemma_zero();
    } else {
        let n = if v < 0 {
            -v
        } else {
            v
        };
        lemma2_to64();
        assert(n * up(0) == n) by (nonlinear_arith)
            requires
                up(0) == 1,
        ;
        let j = lemma_whole_scale(n, 0);
        assert(up(-j) == 1 && 1 * up(-j) == 1 && down(-j) == up(j));
        assert(in_binade(n, 1, -j));
        lemma_binade_unique(n, 1, -j);
        reveal(rounded);
        let m = n * up(j);
        lemma_div_basics(m);
        assert(half_even(m, 1) == m) by {
            lemma_half_even_near(m, 1);
        }
        assert(d.mant == m && d.exp == -j && d.neg == (v < 0));
        lemma_as_real(n, up(j));
        lemma_two_to(-j);
        lemma_up_pos(j);
        let (nr, u, t) = (n as real, up(j) as real, two_to(-j));
        assert(t * u == 1 as real);
        assert((nr * u) * t == nr) by (nonlinear_arith)
            requires
                t * u == 1 as real,
        ;
    }
}

/// A decimal constant is near its value.
pub proof fn lemma_ratio_close(p: int, q: int)
    requires
        0 < p < 0x1_0000_0000,
        0 < q < 0x1_0000_0000,
    ensures
        sound(Number::spec_ratio(p, q)),
        within(
            amount(Number::spec_ratio(p, q)),
            (p as real) / (q as real),
            fine((p as real) / (q as real)),
        ),
        sound(Number::spec_ratio(p, q).spec_short()),
        close(amount(Number::spec_ratio(p, q).spec_short()), (p as real) / (q as real)),
{
    lemma_constants(0, p, q);
    lemma_ratio_near(p, q);
    let r = ratio(p, q);
    let x = (p as real) / (q as real);
    lemma_fitted_near(r);
    lemma_then_short(Number::spec_ratio(p, q), x);
}

proof fn lemma_ratio_near(p: int, q: int)
    requires
        0 < p < 0x1_0000_0000,
        0 < q < 0x1_0000_0000,
    ensures
        plain(ratio(p, q)),
        within(
            value(ratio(p, q)),
            (p as real) / (q as real),
            (p as real) / (q as real) / (0x20_0000_0000_0000 as real),
        ),
        (0 as real) < (p as real) / (q as real) <= (0x1_0000_0000 as real),
{
    lemma2_to64();
    lemma2_to64_rest();
    assert(p * up(0) == p && q * up(0) == q) by (nonlinear_arith)
        requires
            up(0) == 1,
    ;
    let i = lemma_whole_scale(p, 0);
    let j = lemma_whole_scale(q, 0);
    let (pp, qq) = (p * up(i), q * up(j));
    let k0: int = if pp < qq {
        -53
    } else {
        -52
    };
    let k = k0 + j - i;
    assert(up(52) == LOW && up(53) == TOP);
    assert(up(k) == 1 && q * up(k) == q) by {
        assert(k <= 0);
        assert(q * 1 == q);
    }
    lemma_up_adds(-k, j);
    lemma_up_adds(-k0, i);
    assert(-k + j == -k0 + i);
    lemma_up_pos(j);
    let (uk, uj, ui, u0) = (up(-k), up(j), up(i), up(-k0));
    assert(LOW * q <= p * uk && p * uk < TOP * q) by (nonlinear_arith)
        requires
            uk * uj == u0 * ui,
            pp == p * ui,
            qq == q * uj,
            LOW <= pp < TOP,
            LOW <= qq < TOP,
            TOP == 2 * LOW,
            pp < qq ==> u0 == TOP,
            pp >= qq ==> u0 == LOW,
            uj >= 1,
            q > 0,
            p > 0,
    ;
    assert(in_binade(p, q, k));
    lemma_rounded_form(false, p, q, 0, k);
    lemma_rounded_near(false, p, q, 0, k);
    let r = ratio(p, q);
    lemma_extent(r);
    let (pr, qr) = (p as real, q as real);
    let x = pr / qr;
    assert(x * (1 as real) == x) by (nonlinear_arith);
    assert((0 as real) < x && x <= (0x1_0000_0000 as real)) by (nonlinear_arith)
        requires
            x == pr / qr,
            (0 as real) < pr,
            pr <= (0x1_0000_0000 as real),
            qr >= (1 as real),
    ;
}

/// The nearest integer is at most a half away.
pub proof fn lemma_round_by_amount(n: Number)
    requires
        sound(n),
        modest(amount(n)),
    ensures
        within(n.spec_round() as real, amount(n), (1 as real) / (2 as real)),
{
    lemma_operations(n, n);
    let d = n.kind()->value;
    reveal(Double::spec_round);
    lemma_extent(d);
    lemma_up_pos(d.exp as int);
    lemma_up_pos(-d.exp);
    lemma_two_to(d.exp as int);
    let (a, u) = (d.mant * up(d.exp as int), down(d.exp as int));
    let q = (2 * a + u) / (2 * u);
    lemma_fundamental_div_mod(2 * a + u, 2 * u);
    lemma_mod_bound(2 * a + u, 2 * u);
    lemma_as_real(d.mant as int, up(d.exp as int));
    let s = (2 * a + u) % (2 * u);
    assert(2 * (u * q) == 2 * u * q) by (nonlinear_arith);
    lemma_as_real(u, q);
    let (m, t, x) = (d.mant as real, two_to(d.exp as int), extent(d));
    let (ar, ur, qr) = (a as real, u as real, q as real);
    assert(x * ur == ar) by (nonlinear_arith)
        requires
            x == m * t,
            t * ur == up(d.exp as int) as real,
            ar == m * (up(d.exp as int) as real),
    ;
    assert(within(qr, x, (1 as real) / (2 as real))) by {
        assert(qr - x <= (1 as real) / (2 as real) && x - qr <= (1 as real) / (2 as real)) by (
        nonlinear_arith)
            requires
                x * ur == ar,
                ur >= (1 as real),
                (2 as real) * (ur * qr) <= (2 as real) * ar + ur,
                (2 as real) * ar + ur <= (2 as real) * (ur * qr) + (2 as real) * ur,
        ;
    }
}

/// The integer part of a number that is not negative is the last integer that is
/// not above it.
pub proof fn lemma_trunc_by_amount(n: Number)
    requires
        sound(n),
        (0 as real) <= amount(n),
        modest(amount(n)),
    ensures
        n.spec_trunc() >= 0,
        n.spec_trunc() as real <= amount(n) < (n.spec_trunc() + 1) as real,
{
    lemma_operations(n, n);
    let d = n.kind()->value;
    reveal(Double::spec_trunc);
    lemma_extent(d);
    lemma_up_pos(d.exp as int);
    lemma_up_pos(-d.exp);
    lemma_two_to(d.exp as int);
    let (a, u) = (d.mant * up(d.exp as int), down(d.exp as int));
    let q = a / u;
    lemma_fundamental_div_mod(a, u);
    lemma_mod_bound(a, u);
    lemma_as_real(d.mant as int, up(d.exp as int));
    assert(a >= 0) by (nonlinear_arith)
        requires
            a == d.mant * up(d.exp as int),
            up(d.exp as int) >= 1,
    ;
    lemma_div_pos_is_pos(a, u);
    lemma_as_real(u, q);
    let (m, t, x) = (d.mant as real, two_to(d.exp as int), extent(d));
    let (ar, ur, qr) = (a as real, u as real, q as real);
    assert(x * ur == ar) by (nonlinear_arith)
        requires
            x == m * t,
            t * ur == up(d.exp as int) as real,
            ar == m * (up(d.exp as int) as real),
    ;
    assert(qr <= x && x < qr + (1 as real)) by (nonlinear_arith)
        requires
            x * ur == ar,
            ur >= (1 as real),
            ur * qr <= ar,
            ar < ur * qr + ur,
    ;
    if d.neg {
        assert(extent(d) == (0 as real));
        assert(d.mant == 0);
    }
}

/// A whole number has its own value.
pub proof fn lemma_whole_value(v: int)
    requires
        -0x20_0000_0000_0000 < v < 0x20_0000_0000_0000,
    ensures
        plain(whole(v)),
        value(whole(v)) == v as real,
{
    lemma_int_amount(v);
    lemma_constants(v, 0, 1);
}

/// A product of modest numbers can be calculated with.
pub proof fn lemma_plain_result(d: Double)
    requires
        d.normal(),
        -10000 <= d.exp <= 10000,
        value(d) == (0 as real) || size(value(d)) >= speck(),
        size(value(d)) <= (0x800_0000_0000 as real),
    ensures
        plain(d),
{
    lemma_extent(d);
    if d.mant != 0 {
        lemma2_to64();
        let lo = LOW as real;
        assert(two_to(0) == (1 as real));
        assert(lo * (1 as real) == lo) by (nonlinear_arith);
        lemma_exponent_below(d, 0);
        if d.exp < -1200 {
            lemma_two_adds(d.exp + 100, -100);
            lemma_two_small(d.exp + 100);
            lemma_two_to(-100);
            let (m, a, b) = (d.mant as real, two_to(d.exp + 100), two_to(-100));
            lemma_up_adds(60, 40);
            lemma2_to64_rest();
            lemma_pow2_pos(40);
            assert(up(100) >= 0x20_0000_0000_0000) by (nonlinear_arith)
                requires
                    up(100) == up(60) * up(40),
                    up(60) >= 0x20_0000_0000_0000,
                    up(40) >= 1,
            ;
            let ur = up(100) as real;
            assert(b * ur == 1 as real);
            assert(m * (a * b) < a) by (nonlinear_arith)
                requires
                    b * ur == 1 as real,
                    (0 as real) <= m,
                    m < (0x20_0000_0000_0000 as real),
                    ur >= (0x20_0000_0000_0000 as real),
                    a > (0 as real),
            ;
            assert(false);
        }
    }
}

/// A ratio is near its value.
pub proof fn lemma_ratio_value(p: int, q: int)
    requires
        0 < p < 0x1_0000_0000,
        0 < q < 0x1_0000_0000,
    ensures
        plain(ratio(p, q)),
        within(
            value(ratio(p, q)),
            (p as real) / (q as real),
            (p as real) / (q as real) / (0x20_0000_0000_0000 as real),
        ),
{
    lemma_ratio_near(p, q);
}

/// A whole number times a decimal constant is near the exact share.
pub proof fn lemma_share_value(n: int, p: int, q: int)
    requires
        0 <= n <= 0x1_0000_0000,
        0 < p < 0x1_0000,
        0 < q < 0x1_0000,
    ensures
        ({
            let exact = (n as real) * ((p as real) / (q as real));
            within(
                value(whole(n).spec_times(ratio(p, q))),
                exact,
                exact / (0x4_0000_0000_0000 as real),
            )
        }),
{
    lemma_whole_value(n);
    lemma_ratio_value(p, q);
    lemma_times_near(whole(n), ratio(p, q));
    let (nr, f, v) = (n as real, (p as real) / (q as real), value(ratio(p, q)));
    let (exact, made) = (nr * f, nr * v);
    assert(f > (0 as real)) by (nonlinear_arith)
        requires
            f == (p as real) / (q as real),
            p > 0,
            q > 0,
    ;
    assert(exact >= (0 as real) && made >= (0 as real) && made - exact <= exact / (
    0x20_0000_0000_0000 as real) && exact - made <= exact / (0x20_0000_0000_0000 as real)) by (
    nonlinear_arith)
        requires
            exact == nr * f,
            made == nr * v,
            nr >= (0 as real),
            f > (0 as real),
            v - f <= f / (0x20_0000_0000_0000 as real),
            f - v <= f / (0x20_0000_0000_0000 as real),
    ;
}

/// A quotient of whole numbers is near the exact one.
pub proof fn lemma_quotient_value(a: int, b: int)
    requires
        0 <= a < 0x20_0000_0000_0000,
        0 < b < 0x20_0000_0000_0000,
    ensures
        ({
            let exact = (a as real) / (b as real);
            within(
                value(whole(a).spec_over(whole(b))),
                exact,
                exact / (0x4_0000_0000_0000 as real),
            )
        }),
{
    lemma_whole_value(a);
    lemma_whole_value(b);
    lemma_zero_only(b);
    lemma_over_near(whole(a), whole(b));
    let exact = (a as real) / (b as real);
    assert(exact >= (0 as real)) by (nonlinear_arith)
        requires
            exact == (a as real) / (b as real),
            a >= 0,
            b > 0,
    ;
}

proof fn lemma_zero_only(b: int)
    requires
        0 < b < 0x20_0000_0000_0000,
    ensures
        whole(b).mant != 0,
{
    lemma_whole_value(b);
    lemma_extent(whole(b));
}

/// A quotient of a whole number by a product of two is near the exact one.
pub proof fn lemma_fill_value(a: int, b: int, c: int)
    requires
        0 <= a <= 0x1_0000_0000,
        0 < b <= 0x1_0000_0000,
        0 < c <= 0x1_0000_0000,
        b * c <= 0x100_0000_0000,
    ensures
        ({
            let exact = (a as real) / ((b * c) as real);
            within(
                value(whole(a).spec_over(whole(b).spec_times(whole(c)))),
                exact,
                exact / (0x4_0000_0000_0000 as real),
            )
        }),
{
    lemma_whole_value(a);
    lemma_whole_value(b);
    lemma_whole_value(c);
    let (x, d) = (whole(a), whole(b).spec_times(whole(c)));
    lemma_times_near(whole(b), whole(c));
    lemma_as_real(b, c);
    let (v, n, ar) = (value(d), (b * c) as real, a as real);
    assert(b * c >= 1) by (nonlinear_arith)
        requires
            b >= 1,
            c >= 1,
    ;
    lemma_plain_result(d);
    lemma_extent(d);
    lemma_over_near(x, d);
    let (q, exact) = (ar / v, ar / n);
    assert(ar == q * v && ar == exact * n) by (nonlinear_arith)
        requires
            q == ar / v,
            exact == ar / n,
            v > (0 as real),
            n > (0 as real),
    ;
    assert(exact >= (0 as real) && q >= (0 as real)) by (nonlinear_arith)
        requires
            q == ar / v,
            exact == ar / n,
            v > (0 as real),
            n > (0 as real),
            ar >= (0 as real),
    ;
    assert(q - exact <= exact / (0x10_0000_0000_0000 as real) && exact - q <= exact / (
    0x10_0000_0000_0000 as real)) by (nonlinear_arith)
        requires
            ar == q * v,
            ar == exact * n,
            n >= (1 as real),
            exact >= (0 as real),
            q >= (0 as real),
            v - n <= n / (0x20_0000_0000_0000 as real),
            n - v <= n / (0x20_0000_0000_0000 as real),
            v > (0 as real),
    ;
}

} // verus!
