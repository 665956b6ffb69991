use doubao_clean::double::Double;
use doubao_clean::number::Number;
use doubao_clean::shift::Histogram;
use doubao_clean::stats::{median, sort_numbers};

fn n(v: f64) -> Number {
    Number::from_bits(v.to_bits())
}

fn f(v: Number) -> f64 {
    f64::from_bits(v.to_bits())
}

/// A stream of numbers that look random.
struct Mixer(u64);

impl Mixer {
    fn next(&mut self) -> u64 {
        self.0 = self.0.wrapping_mul(6364136223846793005).wrapping_add(1442695040888963407);
        let x = self.0 ^ (self.0 >> 29);
        x.wrapping_mul(0xbf58476d1ce4e5b9)
    }

    fn double(&mut self) -> f64 {
        let m = self.next() as f64 / u64::MAX as f64 * 2.0 - 1.0;
        let e = (self.next() % 60) as i32 - 30;
        m * 2f64.powi(e)
    }
}

fn same(a: f64, b: f64) -> bool {
    a == b || (a.is_nan() && b.is_nan())
}

#[test]
fn bits_go_in_and_come_out() {
    for v in [
        0.0,
        1.0,
        -1.5,
        0.1,
        f64::MAX,
        f64::MIN_POSITIVE,
        5e-324,
        -3e-310,
        f64::INFINITY,
        f64::NEG_INFINITY,
    ] {
        assert_eq!(f(n(v)), v);
    }
    assert!(f(n(f64::NAN)).is_nan());
    assert_eq!(n(-0.0).to_bits(), 0);
}

#[test]
fn double_arithmetic_is_that_of_the_machine() {
    let mut mix = Mixer(7);
    for _ in 0..4000 {
        let (a, b) = (mix.double(), mix.double());
        assert!(same(f(n(a).plus(n(b))), a + b), "{a} + {b}");
        assert!(same(f(n(a).minus(n(b))), a - b), "{a} - {b}");
        assert!(same(f(n(a).times(n(b))), a * b), "{a} * {b}");
        assert!(same(f(n(a).over(n(b))), a / b), "{a} / {b}");
        assert!(same(f(n(a.abs()).sqrt()), a.abs().sqrt()), "sqrt {a}");
        assert_eq!(n(a).less(n(b)), a < b);
        assert_eq!(n(a).at_most(n(b)), a <= b);
        assert_eq!(n(a).trunc(), a as i64);
        assert_eq!(n(a).round(), a.round() as i64);
        assert_eq!(f(n(a).floor()), a.floor());
        assert_eq!(f(n(a).abs()), a.abs());
        assert_eq!(f(n(a).max(n(b))), a.max(b));
        assert_eq!(f(n(a).min(n(b))), a.min(b));
    }
}

#[test]
fn single_arithmetic_is_that_of_the_machine() {
    let mut mix = Mixer(11);
    for _ in 0..4000 {
        let (a, b) = (mix.double() as f32, mix.double() as f32);
        let (x, y) = (n(a as f64), n(b as f64));
        assert!(same(f(x.plus(y).short()), (a + b) as f64), "{a} + {b}");
        assert!(same(f(x.minus(y).short()), (a - b) as f64), "{a} - {b}");
        assert!(same(f(x.times(y).short()), (a * b) as f64), "{a} * {b}");
        assert!(same(f(x.over(y).short()), (a / b) as f64), "{a} / {b}");
        assert!(same(f(n(a.abs() as f64).sqrt().short()), a.abs().sqrt() as f64), "sqrt {a}");
    }
    for v in [1e-40f64, 1e-45, 3.4e38, 1e39, -1e39, 1.17549429e-38] {
        assert_eq!(f(n(v).short()), v as f32 as f64, "{v}");
    }
}

#[test]
fn infinities_and_not_a_numbers_are_those_of_the_machine() {
    let special =
        [0.0, 1.0, -2.5, f64::INFINITY, f64::NEG_INFINITY, f64::NAN, f64::MAX, 1e-300];
    for a in special {
        for b in special {
            assert!(same(f(n(a).plus(n(b))), a + b), "{a} + {b}");
            assert!(same(f(n(a).minus(n(b))), a - b), "{a} - {b}");
            assert!(same(f(n(a).times(n(b))), a * b), "{a} * {b}");
            assert!(same(f(n(a).over(n(b))), a / b), "{a} / {b}");
            assert_eq!(n(a).less(n(b)), a < b);
            assert_eq!(n(a).at_most(n(b)), a <= b);
            assert!(same(f(n(a).max(n(b))), a.max(b)), "max {a} {b}");
            assert!(same(f(n(a).min(n(b))), a.min(b)), "min {a} {b}");
        }
        assert!(same(f(n(a).sqrt()), a.sqrt()), "sqrt {a}");
        assert_eq!(n(a).trunc(), a as i64);
        assert!(same(f(n(a).short()), a as f32 as f64), "short {a}");
    }
}

#[test]
fn constants_read_like_literals() {
    assert_eq!(f(Number::decimal(72, 100)), 0.72);
    assert_eq!(f(Number::decimal(15, 100).short()), 0.15f32 as f64);
    assert_eq!(f(Number::decimal(1, 1000).short()), 1e-3f32 as f64);
    assert_eq!(f(Number::decimal(18, 10).short()), 1.8f32 as f64);
    assert_eq!(f(Number::decimal(1, 1_000_000_000)), 1e-9);
    assert_eq!(f(Number::from_int(-7)), -7.0);
    assert_eq!(f(Number::from_count(9)), 9.0);
    assert_eq!(f(Number::from_double(Double::decimal(1, 3))), 1.0 / 3.0);
    assert_eq!(f(n(300.0).clamp(n(0.0), n(255.0))), 255.0);
}

#[test]
fn doubles_without_infinities_agree_too() {
    let a = Double::from_int(2848).over(Double::from_int(1600));
    assert_eq!(f(Number::from_double(a)), 2848.0 / 1600.0);
    assert_eq!(a.times(Double::from_int(330)).trunc(), (330.0 * 2848.0 / 1600.0) as i64);
    assert_eq!(Double::decimal(25, 10).round(), 3);
    assert!(Double::from_int(2).sqrt().less(Double::decimal(1415, 1000)));
}

#[test]
fn values_are_sorted_and_halved() {
    let v: Vec<Number> = [3.0, -1.0, 2.0, 10.0].iter().map(|&x| n(x)).collect();
    let sorted: Vec<f64> = sort_numbers(&v).into_iter().map(f).collect();
    assert_eq!(sorted, vec![-1.0, 2.0, 3.0, 10.0]);
    assert_eq!(f(median(&v)), 2.5);
    assert_eq!(f(median(&v[..3])), 2.0);
    assert_eq!(f(median(&[])), 0.0);
}

#[test]
fn counted_values_have_a_median() {
    let mut h = Histogram::new();
    assert_eq!(h.twice_median(), 0);
    for v in [9u16, 1, 500, 9] {
        h.count(v);
    }
    assert_eq!(h.twice_median(), 18);
    h.count(300);
    assert_eq!(h.rank(3), 300);
    assert_eq!(h.twice_median(), 18);
}
