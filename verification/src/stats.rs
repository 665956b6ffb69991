//! Sorting of numbers, percentiles, and mirrored indices.

use crate::double::{lemma_percentage, lemma_percentage_below, ratio, whole, Double};
use crate::number::{Class, Number};
use vstd::prelude::*;
use vstd::relations::{sorted_by, total_ordering};
use vstd::seq_lib::lemma_sorted_unique;

verus! {

/// The magnitude of `a` does not exceed that of `b`, by exponent first.
pub open spec fn not_above(a: Double, b: Double) -> bool {
    ||| a.mant == 0 && b.mant != 0
    ||| (a.mant == 0) == (b.mant == 0) && (a.exp < b.exp || (a.exp == b.exp && a.mant <= b.mant))
}

/// The order of numbers.
pub open spec fn at_most(a: Double, b: Double) -> bool {
    if a.neg != b.neg {
        a.neg
    } else if a.neg {
        not_above(b, a)
    } else {
        not_above(a, b)
    }
}

/// Values with a total order.
pub trait Ranked: Copy {
    spec fn ranks(self, other: Self) -> bool;

    proof fn lemma_ranks()
        ensures
            forall|a: Self| #[trigger] a.ranks(a),
            forall|a: Self, b: Self| #[trigger] a.ranks(b) && b.ranks(a) ==> a == b,
            forall|a: Self, b: Self, c: Self|
                #![trigger a.ranks(b), b.ranks(c)]
                a.ranks(b) && b.ranks(c) ==> a.ranks(c),
            forall|a: Self, b: Self| #[trigger] a.ranks(b) || b.ranks(a),
    ;

    fn is_at_most(&self, other: &Self) -> (r: bool)
        ensures
            r == self.ranks(*other),
    ;
}

/// The order of values as a relation.
pub open spec fn order<T: Ranked>() -> spec_fn(T, T) -> bool {
    |a: T, b: T| a.ranks(b)
}

proof fn lemma_order<T: Ranked>()
    ensures
        total_ordering(order::<T>()),
{
    T::lemma_ranks();
}

/// The order of numbers is the order of their values.
pub proof fn lemma_at_most(a: Double, b: Double)
    requires
        a.wf(),
        b.wf(),
    ensures
        at_most(a, b) <==> !b.spec_lt(a),
{
    crate::double::lemma_less(b, a);
}

impl Ranked for Double {
    open spec fn ranks(self, other: Double) -> bool {
        at_most(self, other)
    }

    proof fn lemma_ranks() {
    }

    fn is_at_most(&self, other: &Double) -> (r: bool) {
        if self.neg != other.neg {
            return self.neg;
        }
        let (s, t) = if self.neg {
            (other, self)
        } else {
            (self, other)
        };
        if (s.mant == 0) != (t.mant == 0) {
            return s.mant == 0;
        }
        s.exp < t.exp || (s.exp == t.exp && s.mant <= t.mant)
    }
}

/// The place of a class: negative infinity, the finite numbers, infinity, and
/// last what is no number.
pub open spec fn class_rank(c: Class) -> int {
    match c {
        Class::Infinite { neg: true } => 0,
        Class::Finite { .. } => 1,
        Class::Infinite { neg: false } => 2,
        Class::Nan => 3,
    }
}

/// The order of classes.
pub open spec fn class_at_most(a: Class, b: Class) -> bool {
    match (a, b) {
        (Class::Finite { value: x }, Class::Finite { value: y }) => at_most(x, y),
        _ => class_rank(a) <= class_rank(b),
    }
}

impl Ranked for Number {
    open spec fn ranks(self, other: Number) -> bool {
        class_at_most(self.kind(), other.kind())
    }

    proof fn lemma_ranks() {
        crate::number::lemma_kind();
    }

    fn is_at_most(&self, other: &Number) -> (r: bool) {
        let (a, b): (Class, Class) = (self.class_of(), other.class_of());
        match (a, b) {
            (Class::Finite { value: x }, Class::Finite { value: y }) => x.is_at_most(&y),
            _ => place(a) <= place(b),
        }
    }
}

fn place(c: Class) -> (r: u8)
    ensures
        r == class_rank(c),
{
    match c {
        Class::Infinite { neg } => if neg {
            0
        } else {
            2
        },
        Class::Finite { .. } => 1,
        Class::Nan => 3,
    }
}

/// The middle of some numbers, or halfway between the middle two; zero for no
/// numbers. Halfway is taken in single precision.
pub open spec fn median_of(values: Seq<Number>) -> Number {
    let v = ascending(values);
    let n = v.len() as int;
    if n == 0 {
        Number::spec_int(0)
    } else if n % 2 == 1 {
        v[n / 2]
    } else {
        v[n / 2 - 1].spec_plus(v[n / 2]).spec_short().spec_times(
            Number::spec_ratio(1, 2),
        ).spec_short()
    }
}

pub fn median(values: &[Number]) -> (r: Number)
    ensures
        r == median_of(values@),
{
    let v = sort_numbers(values);
    let n: usize = v.len();
    if n == 0 {
        Number::from_int(0)
    } else if n % 2 == 1 {
        v[n / 2]
    } else {
        v[n / 2 - 1].plus(v[n / 2]).short().times(Number::decimal(1, 2)).short()
    }
}

/// The values in ascending order.
pub open spec fn ascending<T: Ranked>(v: Seq<T>) -> Seq<T> {
    v.sort_by(order::<T>())
}

/// Merges two ascending lists.
fn merge<T: Ranked>(a: &[T], b: &[T]) -> (r: Vec<T>)
    requires
        sorted_by(a@, order::<T>()),
        sorted_by(b@, order::<T>()),
        a@.len() + b@.len() <= usize::MAX,
    ensures
        sorted_by(r@, order::<T>()),
        r@.to_multiset() == a@.to_multiset().add(b@.to_multiset()),
{
    let mut out: Vec<T> = Vec::new();
    let mut i: usize = 0;
    let mut j: usize = 0;
    let (n, m): (usize, usize) = (a.len(), b.len());
    let ghost leq = order::<T>();
    proof {
        lemma_order::<T>();
        assert(out@ =~= seq![]);
        assert(a@.take(0) =~= seq![]);
        assert(b@.take(0) =~= seq![]);
        assert(out@.to_multiset() =~= a@.take(0).to_multiset().add(b@.take(0).to_multiset())) by {
            broadcast use {vstd::multiset::group_multiset_axioms, vstd::seq_lib::group_to_multiset_ensures};

        }
    }
    while i < n || j < m
        invariant
            n == a@.len(),
            m == b@.len(),
            i <= n,
            j <= m,
            n + m <= usize::MAX,
            leq == order::<T>(),
            total_ordering(leq),
            sorted_by(a@, leq),
            sorted_by(b@, leq),
            sorted_by(out@, leq),
            forall|x: int, y: int|
                #![trigger out@[x], a@[y]]
                0 <= x < out@.len() && i <= y < n ==> leq(out@[x], a@[y]),
            forall|x: int, y: int|
                #![trigger out@[x], b@[y]]
                0 <= x < out@.len() && j <= y < m ==> leq(out@[x], b@[y]),
            out@.to_multiset() == a@.take(i as int).to_multiset().add(
                b@.take(j as int).to_multiset(),
            ),
        decreases n - i + (m - j),
    {
        let from_a: bool = j >= m || (i < n && a[i].is_at_most(&b[j]));
        let ghost before = out@;
        if from_a {
            let v: T = a[i];
            out.push(v);
            proof {
                broadcast use {
                    vstd::multiset::group_multiset_axioms,
                    vstd::seq_lib::group_to_multiset_ensures,
                };

                assert(a@.take(i + 1) =~= a@.take(i as int).push(v));
                assert(out@.to_multiset() =~= a@.take(i + 1).to_multiset().add(
                    b@.take(j as int).to_multiset(),
                ));
                assert forall|x: int, y: int|
                    #![trigger out@[x], b@[y]]
                    0 <= x < out@.len() && j <= y < m implies leq(out@[x], b@[y]) by {
                    if x == before.len() {
                        assert(leq(v, b@[j as int]));
                        if y > j {
                            assert(leq(b@[j as int], b@[y]));
                        }
                    } else {
                        assert(out@[x] == before[x]);
                    }
                }
                assert forall|x: int, y: int|
                    #![trigger out@[x], a@[y]]
                    0 <= x < out@.len() && i + 1 <= y < n implies leq(out@[x], a@[y]) by {
                    if x == before.len() {
                        assert(leq(a@[i as int], a@[y]));
                    } else {
                        assert(out@[x] == before[x]);
                    }
                }
                assert forall|x: int, y: int| 0 <= x < y < out@.len() implies #[trigger] leq(
                    out@[x],
                    out@[y],
                ) by {
                    assert(out@[x] == before[x]);
                    if y == before.len() {
                        assert(leq(before[x], a@[i as int]));
                    } else {
                        assert(leq(before[x], before[y]));
                    }
                }
            }
            i = i + 1;
        } else {
            let v: T = b[j];
            out.push(v);
            proof {
                broadcast use {
                    vstd::multiset::group_multiset_axioms,
                    vstd::seq_lib::group_to_multiset_ensures,
                };

                assert(b@.take(j + 1) =~= b@.take(j as int).push(v));
                assert(out@.to_multiset() =~= a@.take(i as int).to_multiset().add(
                    b@.take(j + 1).to_multiset(),
                ));
                assert forall|x: int, y: int|
                    #![trigger out@[x], a@[y]]
                    0 <= x < out@.len() && i <= y < n implies leq(out@[x], a@[y]) by {
                    if x == before.len() {
                        assert(leq(a@[i as int], v) || leq(v, a@[i as int]));
                        assert(leq(v, a@[i as int]));
                        if y > i {
                            assert(leq(a@[i as int], a@[y]));
                        }
                    } else {
                        assert(out@[x] == before[x]);
                    }
                }
                assert forall|x: int, y: int|
                    #![trigger out@[x], b@[y]]
                    0 <= x < out@.len() && j + 1 <= y < m implies leq(out@[x], b@[y]) by {
                    if x == before.len() {
                        assert(leq(b@[j as int], b@[y]));
                    } else {
                        assert(out@[x] == before[x]);
                    }
                }
                assert forall|x: int, y: int| 0 <= x < y < out@.len() implies #[trigger] leq(
                    out@[x],
                    out@[y],
                ) by {
                    assert(out@[x] == before[x]);
                    if y == before.len() {
                        assert(leq(before[x], b@[j as int]));
                    } else {
                        assert(leq(before[x], before[y]));
                    }
                }
            }
            j = j + 1;
        }
    }
    proof {
        assert(a@.take(n as int) =~= a@);
        assert(b@.take(m as int) =~= b@);
    }
    out
}

/// Sorts values in ascending order.
pub fn sort_numbers<T: Ranked>(v: &[T]) -> (r: Vec<T>)
    ensures
        r@ == ascending(v@),
        r@.to_multiset() == v@.to_multiset(),
        r@.len() == v@.len(),
    decreases v@.len(),
{
    let n: usize = v.len();
    proof {
        lemma_order::<T>();
        v@.lemma_sort_by_ensures(order::<T>());
    }
    if n <= 1 {
        let mut out: Vec<T> = Vec::new();
        if n == 1 {
            out.push(v[0]);
        }
        proof {
            assert(out@ =~= v@);
            assert(sorted_by(out@, order::<T>()));
            lemma_sorted_unique(out@, ascending(v@), order::<T>());
        }
        return out;
    }
    let half: usize = n / 2;
    let left = vstd::slice::slice_subrange(v, 0, half);
    let right = vstd::slice::slice_subrange(v, half, n);
    let a = sort_numbers(left);
    let b = sort_numbers(right);
    proof {
        left@.lemma_sort_by_ensures(order::<T>());
        right@.lemma_sort_by_ensures(order::<T>());
    }
    let out = merge(a.as_slice(), b.as_slice());
    proof {
        assert(v@ =~= left@ + right@);
        vstd::seq_lib::lemma_multiset_commutative(left@, right@);
        lemma_sorted_unique(out@, ascending(v@), order::<T>());
        broadcast use vstd::seq_lib::group_to_multiset_ensures;

        assert(out@.to_multiset() == v@.to_multiset());
        assert(out@.len() == out@.to_multiset().len());
        assert(v@.len() == v@.to_multiset().len());
    }
    out
}

/// The position, counted from zero and with a fraction, that splits `n` sorted
/// numbers at `p` percent.
pub open spec fn percent_rank(p: int, n: int) -> Double {
    ratio(p, 100).spec_times(whole(n - 1))
}

/// The number that `p` percent of some numbers do not exceed, interpolated
/// between neighbours; zero for no numbers.
pub open spec fn percentile_of(values: Seq<Double>, p: int) -> Double {
    if values.len() == 0 {
        whole(0)
    } else {
        let v = ascending(values);
        let rank = percent_rank(p, v.len() as int);
        let lo = rank.spec_trunc();
        if whole(lo).spec_lt(rank) {
            v[lo].spec_plus(
                v[lo + 1].spec_minus(v[lo]).spec_times(rank.spec_minus(whole(lo))),
            )
        } else {
            v[lo]
        }
    }
}

/// The `p` percentile of some numbers.
pub(crate) fn percentile(values: &[Double], p: u32, Ghost(bound): Ghost<int>) -> (r: Double)
    requires
        0 < p < 100,
        0 <= bound <= 3000,
        forall|i: int|
            0 <= i < values@.len() ==> (#[trigger] values@[i]).wf() && values@[i].spread() <= bound,
        values@.len() <= 0x10_0000_0000_0000,
    ensures
        r == percentile_of(values@, p as int),
        r.wf(),
        r.spread() <= bound + 800,
{
    if values.len() == 0 {
        return Double::zero();
    }
    let v = sort_numbers(values);
    let n: usize = v.len();
    proof {
        assert forall|i: int| 0 <= i < v@.len() implies (#[trigger] v@[i]).wf() && v@[i].spread()
            <= bound by {
            broadcast use vstd::seq_lib::group_to_multiset_ensures;

            assert(v@.contains(v@[i]));
            assert(v@.to_multiset().count(v@[i]) > 0);
            assert(values@.contains(v@[i]));
        }
        lemma_percentage(p as int, n - 1);
    }
    let rank = Double::decimal(p, 100).times(Double::from_count(n - 1));
    let lo: i64 = rank.trunc();
    let low: Double = v[lo as usize];
    if Double::from_int(lo).less(rank) {
        proof {
            lemma_rank_inside(p as int, n - 1);
        }
        let high: Double = v[lo as usize + 1];
        let part = rank.minus(Double::from_int(lo));
        low.plus(high.minus(low).times(part))
    } else {
        low
    }
}

/// A position with a fraction lies before the last one.
proof fn lemma_rank_inside(p: int, n: int)
    requires
        0 < p < 100,
        0 <= n < 0x20_0000_0000_0000,
        whole(ratio(p, 100).spec_times(whole(n)).spec_trunc()).spec_lt(
            ratio(p, 100).spec_times(whole(n)),
        ),
    ensures
        ratio(p, 100).spec_times(whole(n)).spec_trunc() < n,
{
    lemma_percentage(p, n);
    lemma_percentage_below(p, n);
}

} // verus!
