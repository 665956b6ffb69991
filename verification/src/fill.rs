//! Filling a marked area from its surroundings.

use crate::boxes::{larger, smaller};
use crate::grid::{lemma_cell, lemma_position};
use crate::number::Number;
use vstd::prelude::*;

verus! {

/// The cell next to cell `i` that step `k` of nine leads to, if it is another
/// cell of the grid.
pub open spec fn neighbour(w: int, h: int, i: int, k: int) -> Option<int> {
    let x = i % w + k % 3 - 1;
    let y = i / w + k / 3 - 1;
    if k != 4 && 0 <= x < w && 0 <= y < h {
        Some(y * w + x)
    } else {
        None
    }
}

/// Step `k` from cell `i` leads to a known cell.
pub open spec fn leads(known: Seq<bool>, w: int, h: int, i: int, k: int) -> bool {
    neighbour(w, h, i, k) matches Some(j) && known[j]
}

/// How many of the first `k` steps from cell `i` lead to known cells.
pub open spec fn known_near(known: Seq<bool>, w: int, h: int, i: int, k: int) -> int
    decreases k,
{
    if k <= 0 {
        0
    } else {
        known_near(known, w, h, i, k - 1) + if leads(known, w, h, i, k - 1) {
            1int
        } else {
            0
        }
    }
}

/// The sum of channel `c` over the known cells that the first `k` steps from
/// cell `i` lead to.
pub open spec fn near_sum(
    values: Seq<Number>,
    known: Seq<bool>,
    w: int,
    h: int,
    i: int,
    c: int,
    k: int,
) -> Number
    decreases k,
{
    if k <= 0 {
        Number::spec_int(0)
    } else {
        let sum = near_sum(values, known, w, h, i, c, k - 1);
        if leads(known, w, h, i, k - 1) {
            sum.spec_plus(values[3 * neighbour(w, h, i, k - 1).unwrap() + c])
        } else {
            sum
        }
    }
}

/// The cells that are known after one more round.
pub open spec fn known_next(known: Seq<bool>, w: int, h: int) -> Seq<bool> {
    Seq::new(known.len(), |i: int| known[i] || known_near(known, w, h, i, 9) > 0)
}

/// The value at position `j` after one more round: an unknown cell next to
/// known ones takes their mean.
pub open spec fn value_next(
    values: Seq<Number>,
    known: Seq<bool>,
    w: int,
    h: int,
    j: int,
) -> Number {
    let i = j / 3;
    let count = known_near(known, w, h, i, 9);
    if known[i] || count == 0 {
        values[j]
    } else {
        near_sum(values, known, w, h, i, j % 3, 9).spec_over(Number::spec_int(count)).spec_short()
    }
}

pub open spec fn values_next(values: Seq<Number>, known: Seq<bool>, w: int, h: int) -> Seq<Number> {
    Seq::new(values.len(), |j: int| value_next(values, known, w, h, j))
}

/// The values after `n` rounds.
pub open spec fn values_after(
    values: Seq<Number>,
    known: Seq<bool>,
    w: int,
    h: int,
    n: int,
) -> Seq<Number>
    decreases n,
{
    if n <= 0 {
        values
    } else {
        values_after(values_next(values, known, w, h), known_next(known, w, h), w, h, n - 1)
    }
}

pub open spec fn unmarked_cells(mask: Seq<bool>) -> Seq<bool> {
    Seq::new(mask.len(), |i: int| !mask[i])
}

/// The values with the marked cells filled, in at most as many rounds as the
/// longer side has cells, and at most 400.
pub open spec fn inpainted(values: Seq<Number>, mask: Seq<bool>, w: int, h: int) -> Seq<Number> {
    values_after(values, unmarked_cells(mask), w, h, smaller(larger(w, h), 400))
}

/// What the known cells around cell `i` give: their count and the sums of
/// their channels.
fn gather(values: &[Number], known: &[bool], w: usize, h: usize, i: usize) -> (r: (
    usize,
    Number,
    Number,
    Number,
))
    requires
        known@.len() == w * h,
        values@.len() == 3 * known@.len(),
        i < known@.len(),
        w <= 0x7fff_ffff,
        h <= 0x7fff_ffff,
    ensures
        r.0 == known_near(known@, w as int, h as int, i as int, 9),
        r.1 == near_sum(values@, known@, w as int, h as int, i as int, 0, 9),
        r.2 == near_sum(values@, known@, w as int, h as int, i as int, 1, 9),
        r.3 == near_sum(values@, known@, w as int, h as int, i as int, 2, 9),
        0 <= r.0 <= 9,
{
    let n: usize = known.len();
    let total: usize = values.len();
    proof {
        lemma_position(w as int, h as int, i as int);
    }
    let x: usize = i % w;
    let y: usize = i / w;
    let mut count: usize = 0;
    let mut red = Number::from_int(0);
    let mut green = Number::from_int(0);
    let mut blue = Number::from_int(0);
    let mut k: usize = 0;
    while k < 9
        invariant
            n == known@.len(),
            n == w * h,
            total == 3 * n,
            total == values@.len(),
            i < n,
            x == i as int % w as int,
            y == i as int / w as int,
            x < w <= 0x7fff_ffff,
            y < h <= 0x7fff_ffff,
            k <= 9,
            count <= k,
            count == known_near(known@, w as int, h as int, i as int, k as int),
            red == near_sum(values@, known@, w as int, h as int, i as int, 0, k as int),
            green == near_sum(values@, known@, w as int, h as int, i as int, 1, k as int),
            blue == near_sum(values@, known@, w as int, h as int, i as int, 2, k as int),
        decreases 9 - k,
    {
        let nx: usize = x + k % 3;
        let ny: usize = y + k / 3;
        if k != 4 && 1 <= nx && nx <= w && 1 <= ny && ny <= h {
            proof {
                lemma_cell(w as int, h as int, nx - 1, ny - 1);
                assert(neighbour(w as int, h as int, i as int, k as int) == Some(
                    (ny - 1) * w + (nx - 1),
                ));
            }
            let j: usize = (ny - 1) * w + (nx - 1);
            if known[j] {
                red = red.plus(values[3 * j]);
                green = green.plus(values[3 * j + 1]);
                blue = blue.plus(values[3 * j + 2]);
                count = count + 1;
            }
        }
        k = k + 1;
    }
    (count, red, green, blue)
}

/// A round that finds no new cell changes nothing, nor do later ones.
proof fn lemma_settled(values: Seq<Number>, known: Seq<bool>, w: int, h: int, n: int)
    requires
        values.len() == 3 * known.len(),
        forall|i: int|
            0 <= i < known.len() ==> #[trigger] known[i] || known_near(known, w, h, i, 9) <= 0,
    ensures
        values_after(values, known, w, h, n) == values,
    decreases n,
{
    if n > 0 {
        assert forall|j: int| 0 <= j < values.len() implies value_next(values, known, w, h, j)
            == #[trigger] values[j] by {
            let i = j / 3;
            lemma_near_counts(known, w, h, i, 9);
            assert(known[i] || known_near(known, w, h, i, 9) <= 0);
        }
        assert(values_next(values, known, w, h) =~= values);
        assert(known_next(known, w, h) =~= known);
        lemma_settled(values, known, w, h, n - 1);
    }
}

proof fn lemma_near_counts(known: Seq<bool>, w: int, h: int, i: int, k: int)
    ensures
        known_near(known, w, h, i, k) >= 0,
    decreases k,
{
    if k > 0 {
        lemma_near_counts(known, w, h, i, k - 1);
    }
}

/// One round. The last result tells whether a cell was found.
fn fill_round(values: &[Number], known: &[bool], w: usize, h: usize) -> (r: (
    Vec<Number>,
    Vec<bool>,
    bool,
))
    requires
        known@.len() == w * h,
        values@.len() == 3 * known@.len(),
        w <= 0x7fff_ffff,
        h <= 0x7fff_ffff,
    ensures
        r.0@ == values_next(values@, known@, w as int, h as int),
        r.1@ == known_next(known@, w as int, h as int),
        !r.2 ==> forall|i: int|
            0 <= i < known@.len() ==> #[trigger] known@[i] || known_near(
                known@,
                w as int,
                h as int,
                i,
                9,
            ) <= 0,
{
    let n: usize = known.len();
    let total: usize = values.len();
    let mut out: Vec<Number> = Vec::new();
    let mut next: Vec<bool> = Vec::new();
    let mut changed: bool = false;
    let ghost goal = values_next(values@, known@, w as int, h as int);
    let ghost reached = known_next(known@, w as int, h as int);
    let mut i: usize = 0;
    while i < n
        invariant
            n == known@.len(),
            n == w * h,
            total == 3 * n,
            total == values@.len(),
            w <= 0x7fff_ffff,
            h <= 0x7fff_ffff,
            i <= n,
            goal == values_next(values@, known@, w as int, h as int),
            reached == known_next(known@, w as int, h as int),
            out@ == goal.take(3 * i),
            next@ == reached.take(i as int),
            !changed ==> forall|a: int|
                0 <= a < i ==> #[trigger] known@[a] || known_near(known@, w as int, h as int, a, 9)
                    <= 0,
        decreases n - i,
    {
        let mut red = values[3 * i];
        let mut green = values[3 * i + 1];
        let mut blue = values[3 * i + 2];
        let mut now: bool = known[i];
        if !now {
            let (count, a, b, c) = gather(values, known, w, h, i);
            if count > 0 {
                let share = Number::from_count(count);
                red = a.over(share).short();
                green = b.over(share).short();
                blue = c.over(share).short();
                now = true;
                changed = true;
            }
        }
        out.push(red);
        out.push(green);
        out.push(blue);
        next.push(now);
        proof {
            let (p, q, s) = (3 * i as int, 3 * i + 1, 3 * i + 2);
            assert(p / 3 == i && p % 3 == 0);
            assert(q / 3 == i && q % 3 == 1);
            assert(s / 3 == i && s % 3 == 2);
            assert(goal[p] == value_next(values@, known@, w as int, h as int, p));
            assert(goal[q] == value_next(values@, known@, w as int, h as int, q));
            assert(goal[s] == value_next(values@, known@, w as int, h as int, s));
        }
        i = i + 1;
        proof {
            assert(out@ =~= goal.take(3 * i));
            assert(next@ =~= reached.take(i as int));
        }
    }
    proof {
        assert(out@ =~= goal);
        assert(next@ =~= reached);
    }
    (out, next, changed)
}

fn copied(values: &[Number]) -> (r: Vec<Number>)
    ensures
        r@ == values@,
{
    let n: usize = values.len();
    let mut out: Vec<Number> = Vec::new();
    let mut i: usize = 0;
    while i < n
        invariant
            n == values@.len(),
            i <= n,
            out@ == values@.take(i as int),
        decreases n - i,
    {
        out.push(values[i]);
        i = i + 1;
        proof {
            assert(out@ =~= values@.take(i as int));
        }
    }
    proof {
        assert(out@ =~= values@);
    }
    out
}

fn turn_over(mask: &[bool]) -> (r: Vec<bool>)
    ensures
        r@ == unmarked_cells(mask@),
{
    let n: usize = mask.len();
    let mut out: Vec<bool> = Vec::new();
    let mut i: usize = 0;
    while i < n
        invariant
            n == mask@.len(),
            i <= n,
            out@ == unmarked_cells(mask@).take(i as int),
        decreases n - i,
    {
        out.push(!mask[i]);
        i = i + 1;
        proof {
            assert(out@ =~= unmarked_cells(mask@).take(i as int));
        }
    }
    proof {
        assert(out@ =~= unmarked_cells(mask@));
    }
    out
}

/// Fills the marked cells of a plane of three channels from their edge
/// inwards: in each round an unknown cell takes the mean of its known
/// neighbours.
pub fn fill_inpaint(values: &[Number], w: usize, h: usize, mask: &[bool]) -> (r: Vec<Number>)
    requires
        mask@.len() == w * h,
        values@.len() == 3 * mask@.len(),
        w <= 0x7fff_ffff,
        h <= 0x7fff_ffff,
    ensures
        r@ == inpainted(values@, mask@, w as int, h as int),
        r@.len() == values@.len(),
{
    let longer: usize = if w > h {
        w
    } else {
        h
    };
    let rounds: usize = if longer < 400 {
        longer
    } else {
        400
    };
    let mut out = copied(values);
    let mut known = turn_over(mask);
    let mut k: usize = 0;
    while k < rounds
        invariant
            rounds == smaller(larger(w as int, h as int), 400),
            w <= 0x7fff_ffff,
            h <= 0x7fff_ffff,
            mask@.len() == w * h,
            values@.len() == 3 * mask@.len(),
            known@.len() == w * h,
            out@.len() == 3 * known@.len(),
            k <= rounds,
            values_after(out@, known@, w as int, h as int, rounds - k) == inpainted(
                values@,
                mask@,
                w as int,
                h as int,
            ),
        decreases rounds - k,
    {
        let (next, found, changed) = fill_round(out.as_slice(), known.as_slice(), w, h);
        if !changed {
            proof {
                lemma_settled(out@, known@, w as int, h as int, rounds - k);
            }
            return out;
        }
        out = next;
        known = found;
        k = k + 1;
    }
    out
}

/// Filling keeps the cells that are not marked.
pub proof fn lemma_fill_keeps(values: Seq<Number>, mask: Seq<bool>, w: int, h: int, j: int)
    requires
        values.len() == 3 * mask.len(),
        0 <= j < values.len(),
        !mask[j / 3],
    ensures
        inpainted(values, mask, w, h)[j] == values[j],
{
    lemma_rounds_keep(values, unmarked_cells(mask), w, h, smaller(larger(w, h), 400), j);
}

proof fn lemma_rounds_keep(
    values: Seq<Number>,
    known: Seq<bool>,
    w: int,
    h: int,
    n: int,
    j: int,
)
    requires
        values.len() == 3 * known.len(),
        0 <= j < values.len(),
        known[j / 3],
    ensures
        values_after(values, known, w, h, n)[j] == values[j],
    decreases n,
{
    if n > 0 {
        let next = values_next(values, known, w, h);
        assert(next[j] == value_next(values, known, w, h, j));
        lemma_rounds_keep(next, known_next(known, w, h), w, h, n - 1, j);
    }
}

/// Filling keeps the channels apart: two planes that agree in one channel agree
/// in that channel when the same cells are filled, whatever their other channels
/// hold.
pub proof fn lemma_filling_keeps_channels_apart(
    a: Seq<Number>,
    b: Seq<Number>,
    mask: Seq<bool>,
    w: int,
    h: int,
    c: int,
    i: int,
)
    requires
        0 < w,
        0 < h,
        0 <= c < 3,
        a.len() == 3 * (w * h),
        b.len() == 3 * (w * h),
        mask.len() == w * h,
        forall|k: int| 0 <= k < w * h ==> #[trigger] a[3 * k + c] == b[3 * k + c],
        0 <= i < w * h,
    ensures
        inpainted(a, mask, w, h)[3 * i + c] == inpainted(b, mask, w, h)[3 * i + c],
{
    lemma_rounds_apart(a, b, unmarked_cells(mask), w, h, c, smaller(larger(w, h), 400), i);
}

proof fn lemma_rounds_apart(
    a: Seq<Number>,
    b: Seq<Number>,
    known: Seq<bool>,
    w: int,
    h: int,
    c: int,
    n: int,
    i: int,
)
    requires
        0 < w,
        0 < h,
        0 <= c < 3,
        a.len() == 3 * (w * h),
        b.len() == 3 * (w * h),
        known.len() == w * h,
        forall|k: int| 0 <= k < w * h ==> #[trigger] a[3 * k + c] == b[3 * k + c],
        0 <= i < w * h,
    ensures
        values_after(a, known, w, h, n)[3 * i + c] == values_after(b, known, w, h, n)[3 * i + c],
    decreases n,
{
    if n > 0 {
        let (p, q) = (values_next(a, known, w, h), values_next(b, known, w, h));
        assert forall|k: int| 0 <= k < w * h implies #[trigger] p[3 * k + c] == q[3 * k + c] by {
            assert((3 * k + c) / 3 == k && (3 * k + c) % 3 == c);
            lemma_sums_apart(a, b, known, w, h, k, c, 9);
        }
        lemma_rounds_apart(p, q, known_next(known, w, h), w, h, c, n - 1, i);
    }
}

proof fn lemma_sums_apart(
    a: Seq<Number>,
    b: Seq<Number>,
    known: Seq<bool>,
    w: int,
    h: int,
    i: int,
    c: int,
    k: int,
)
    requires
        0 < w,
        0 < h,
        0 <= i < w * h,
        forall|j: int| 0 <= j < w * h ==> #[trigger] a[3 * j + c] == b[3 * j + c],
    ensures
        near_sum(a, known, w, h, i, c, k) == near_sum(b, known, w, h, i, c, k),
    decreases k,
{
    if k > 0 {
        lemma_sums_apart(a, b, known, w, h, i, c, k - 1);
        if leads(known, w, h, i, k - 1) {
            let (x, y) = (i % w + (k - 1) % 3 - 1, i / w + (k - 1) / 3 - 1);
            lemma_cell(w, h, x, y);
            let j = neighbour(w, h, i, k - 1).unwrap();
            assert(a[3 * j + c] == b[3 * j + c]);
        }
    }
}

} // verus!
