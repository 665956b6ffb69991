//! Grey-scale morphology: the lowest or highest tone around each pixel.

use crate::double::{lemma_square_of_opposite, whole, Double};
use vstd::slice::slice_subrange;
use crate::grid::{lemma_cell, lemma_position};
use vstd::prelude::*;

verus! {

/// The tone in column `x` of row `y`.
pub open spec fn tone(gray: Seq<u8>, w: int, x: int, y: int) -> u8 {
    gray[y * w + x]
}

/// `a` is at least as high as `b`, or at least as low.
pub open spec fn beats(highest: bool, a: u8, b: u8) -> bool {
    if highest {
        a >= b
    } else {
        a <= b
    }
}

/// The tone that every other beats.
pub open spec fn weakest(highest: bool) -> u8 {
    if highest {
        0
    } else {
        255
    }
}

/// `m` is the highest (or lowest) tone among the cells that `near` admits
/// around `(x, y)`; where there are none, the weakest tone.
pub open spec fn is_pick(
    gray: Seq<u8>,
    w: int,
    h: int,
    near: spec_fn(int, int) -> bool,
    highest: bool,
    x: int,
    y: int,
    m: u8,
) -> bool {
    &&& forall|sx: int, sy: int|
        #![trigger tone(gray, w, sx, sy)]
        0 <= sx < w && 0 <= sy < h && near(sx - x, sy - y) ==> beats(
            highest,
            m,
            tone(gray, w, sx, sy),
        )
    &&& m == weakest(highest) || exists|sx: int, sy: int|
        #![trigger tone(gray, w, sx, sy)]
        0 <= sx < w && 0 <= sy < h && near(sx - x, sy - y) && tone(gray, w, sx, sy) == m
}

/// The highest (or lowest) tone around `(x, y)`.
pub open spec fn pick(
    gray: Seq<u8>,
    w: int,
    h: int,
    near: spec_fn(int, int) -> bool,
    highest: bool,
    x: int,
    y: int,
) -> u8 {
    choose|m: u8| is_pick(gray, w, h, near, highest, x, y, m)
}

/// The picture whose pixels are the highest (or lowest) tones around them.
pub open spec fn morphed(
    gray: Seq<u8>,
    w: int,
    h: int,
    near: spec_fn(int, int) -> bool,
    highest: bool,
) -> Seq<u8> {
    Seq::new((w * h) as nat, |i: int| pick(gray, w, h, near, highest, i % w, i / w))
}

/// Lowest tones, then highest: bright details smaller than the neighbourhood
/// are gone.
pub open spec fn opened(
    gray: Seq<u8>,
    w: int,
    h: int,
    near: spec_fn(int, int) -> bool,
) -> Seq<u8> {
    morphed(morphed(gray, w, h, near, false), w, h, near, true)
}

/// The neighbourhood that a square table of side `2r + 1` marks.
pub open spec fn by_table(se: Seq<bool>, r: int) -> spec_fn(int, int) -> bool {
    |dx: int, dy: int|
        -r <= dx <= r && -r <= dy <= r && marked(se, r, dx, dy)
}

/// The table entry for an offset.
pub open spec fn marked(se: Seq<bool>, r: int, dx: int, dy: int) -> bool {
    se[(dy + r) * (2 * r + 1) + (dx + r)]
}

/// The pick is unique.
pub proof fn lemma_pick(
    gray: Seq<u8>,
    w: int,
    h: int,
    near: spec_fn(int, int) -> bool,
    highest: bool,
    x: int,
    y: int,
    m: u8,
)
    requires
        is_pick(gray, w, h, near, highest, x, y, m),
    ensures
        pick(gray, w, h, near, highest, x, y) == m,
{
    let k = pick(gray, w, h, near, highest, x, y);
    assert(is_pick(gray, w, h, near, highest, x, y, k));
    if k != m {
        if k != weakest(highest) {
            let (sx, sy) = choose|sx: int, sy: int|
                #![trigger tone(gray, w, sx, sy)]
                0 <= sx < w && 0 <= sy < h && near(sx - x, sy - y) && tone(gray, w, sx, sy) == k;
            assert(beats(highest, m, tone(gray, w, sx, sy)));
        }
        if m != weakest(highest) {
            let (sx, sy) = choose|sx: int, sy: int|
                #![trigger tone(gray, w, sx, sy)]
                0 <= sx < w && 0 <= sy < h && near(sx - x, sy - y) && tone(gray, w, sx, sy) == m;
            assert(beats(highest, k, tone(gray, w, sx, sy)));
        }
    }
}

fn wins(highest: bool, a: u8, b: u8) -> (r: bool)
    ensures
        r == beats(highest, a, b),
{
    if highest {
        a >= b
    } else {
        a <= b
    }
}

/// The better of two tones.
fn better(highest: bool, a: u8, b: u8) -> (r: u8)
    ensures
        r == a || r == b,
        beats(highest, r, a),
        beats(highest, r, b),
{
    if highest {
        if a < b {
            b
        } else {
            a
        }
    } else {
        if b < a {
            b
        } else {
            a
        }
    }
}

/// The pick around `(x, y)` when only the offsets before `(dx, dy)` of a table
/// have been looked at, row by row.
spec fn is_pick_upto(
    gray: Seq<u8>,
    w: int,
    h: int,
    se: Seq<bool>,
    r: int,
    highest: bool,
    x: int,
    y: int,
    dx: int,
    dy: int,
    m: u8,
) -> bool {
    let near = by_table(se, r);
    let seen = |ax: int, ay: int| near(ax, ay) && (ay < dy || (ay == dy && ax < dx));
    is_pick(gray, w, h, seen, highest, x, y, m)
}

/// One pixel of `morph`.
fn pick_at(
    gray: &[u8],
    w: usize,
    h: usize,
    se: &[bool],
    r: usize,
    highest: bool,
    x: usize,
    y: usize,
) -> (m: u8)
    requires
        gray@.len() == w * h,
        r <= 0x7fff_ffff,
        se@.len() == (2 * r + 1) * (2 * r + 1),
        x < w,
        y < h,
    ensures
        m == pick(gray@, w as int, h as int, by_table(se@, r as int), highest, x as int, y as int),
{
    let n: usize = gray.len();
    let side: usize = 2 * r + 1;
    let cells: usize = se.len();
    let mut m: u8 = if highest {
        0
    } else {
        255
    };
    let ghost near = by_table(se@, r as int);
    let mut dy: usize = 0;
    while dy < side
        invariant
            n == w * h,
            gray@.len() == n,
            r <= 0x7fff_ffff,
            side == 2 * r + 1,
            se@.len() == cells,
            cells == side * side,
            x < w,
            y < h,
            dy <= side,
            near == by_table(se@, r as int),
            is_pick_upto(
                gray@,
                w as int,
                h as int,
                se@,
                r as int,
                highest,
                x as int,
                y as int,
                -r as int,
                dy - r,
                m,
            ),
        decreases side - dy,
    {
        let iy: i128 = y as i128 + dy as i128 - r as i128;
        if iy >= 0 && iy < h as i128 {
            let mut dx: usize = 0;
            while dx < side
                invariant
                    n == w * h,
                    gray@.len() == n,
                    r <= 0x7fff_ffff,
                    side == 2 * r + 1,
                    se@.len() == cells,
                    cells == side * side,
                    x < w,
                    y < h,
                    dy < side,
                    dx <= side,
                    iy == y + dy - r,
                    0 <= iy < h,
                    near == by_table(se@, r as int),
                    is_pick_upto(
                        gray@,
                        w as int,
                        h as int,
                        se@,
                        r as int,
                        highest,
                        x as int,
                        y as int,
                        dx - r,
                        dy - r,
                        m,
                    ),
                decreases side - dx,
            {
                proof {
                    lemma_cell(side as int, side as int, dx as int, dy as int);
                }
                let ix: i128 = x as i128 + dx as i128 - r as i128;
                let ghost before = m;
                if se[dy * side + dx] && ix >= 0 && ix < w as i128 {
                    proof {
                        lemma_cell(w as int, h as int, ix as int, iy as int);
                    }
                    m = better(highest, m, gray[iy as usize * w + ix as usize]);
                }
                proof {
                    let dxi = dx - r;
                    let dyi = dy - r;
                    let seen = |ax: int, ay: int|
                        near(ax, ay) && (ay < dyi || (ay == dyi && ax < dxi));
                    let next = |ax: int, ay: int|
                        near(ax, ay) && (ay < dyi || (ay == dyi && ax < dxi + 1));
                    assert(is_pick(gray@, w as int, h as int, seen, highest, x as int, y as int, before));
                    assert(marked(se@, r as int, dxi, dyi) == se@[dy * side + dx]);
                    assert forall|sx: int, sy: int|
                        #![trigger tone(gray@, w as int, sx, sy)]
                        0 <= sx < w && 0 <= sy < h && next(sx - x, sy - y) implies beats(
                        highest,
                        m,
                        tone(gray@, w as int, sx, sy),
                    ) by {
                        if sx - x == dxi && sy - y == dyi {
                        } else {
                            assert(seen(sx - x, sy - y));
                            assert(beats(highest, before, tone(gray@, w as int, sx, sy)));
                        }
                    }
                    if m != weakest(highest) {
                        if m == before {
                            let (sx, sy) = choose|sx: int, sy: int|
                                #![trigger tone(gray@, w as int, sx, sy)]
                                0 <= sx < w && 0 <= sy < h && seen(sx - x, sy - y) && tone(
                                    gray@,
                                    w as int,
                                    sx,
                                    sy,
                                ) == m;
                            assert(next(sx - x, sy - y));
                            assert(tone(gray@, w as int, sx, sy) == m);
                        } else {
                            assert(next(ix - x, iy - y));
                            assert(tone(gray@, w as int, ix as int, iy as int) == m);
                        }
                    }
                    assert(is_pick(gray@, w as int, h as int, next, highest, x as int, y as int, m));
                }
                dx = dx + 1;
            }
        }
        proof {
            lemma_row_done(gray@, w as int, h as int, se@, r as int, highest, x as int, y as int, dy - r, m);
        }
        dy = dy + 1;
    }
    proof {
        let seen = |ax: int, ay: int|
            near(ax, ay) && (ay < side - r || (ay == side - r && ax < -r));
        assert(is_pick(gray@, w as int, h as int, seen, highest, x as int, y as int, m));
        assert forall|sx: int, sy: int|
            #![trigger tone(gray@, w as int, sx, sy)]
            0 <= sx < w && 0 <= sy < h && near(sx - x, sy - y) implies beats(
            highest,
            m,
            tone(gray@, w as int, sx, sy),
        ) by {
            assert(seen(sx - x, sy - y));
        }
        assert(is_pick(gray@, w as int, h as int, near, highest, x as int, y as int, m));
        lemma_pick(gray@, w as int, h as int, near, highest, x as int, y as int, m);
    }
    m
}

/// The end of a table row, or a row outside the picture, adds nothing.
proof fn lemma_row_done(
    gray: Seq<u8>,
    w: int,
    h: int,
    se: Seq<bool>,
    r: int,
    highest: bool,
    x: int,
    y: int,
    dy: int,
    m: u8,
)
    requires
        r >= 0,
        ({
            ||| is_pick_upto(gray, w, h, se, r, highest, x, y, r + 1, dy, m)
            ||| !(0 <= y + dy < h) && is_pick_upto(gray, w, h, se, r, highest, x, y, -r, dy, m)
        }),
    ensures
        is_pick_upto(gray, w, h, se, r, highest, x, y, -r, dy + 1, m),
{
    let near = by_table(se, r);
    let ended = is_pick_upto(gray, w, h, se, r, highest, x, y, r + 1, dy, m);
    let from = if ended {
        r + 1
    } else {
        -r
    };
    let seen = |ax: int, ay: int| near(ax, ay) && (ay < dy || (ay == dy && ax < from));
    let next = |ax: int, ay: int| near(ax, ay) && (ay < dy + 1 || (ay == dy + 1 && ax < -r));
    assert(is_pick(gray, w, h, seen, highest, x, y, m));
    assert forall|sx: int, sy: int|
        #![trigger tone(gray, w, sx, sy)]
        0 <= sx < w && 0 <= sy < h && next(sx - x, sy - y) implies beats(
        highest,
        m,
        tone(gray, w, sx, sy),
    ) by {
        assert(seen(sx - x, sy - y));
    }
    if m != weakest(highest) {
        let (sx, sy) = choose|sx: int, sy: int|
            #![trigger tone(gray, w, sx, sy)]
            0 <= sx < w && 0 <= sy < h && seen(sx - x, sy - y) && tone(gray, w, sx, sy) == m;
        assert(next(sx - x, sy - y));
        assert(tone(gray, w, sx, sy) == m);
    }
    assert(is_pick(gray, w, h, next, highest, x, y, m));
}

fn morph(gray: &[u8], w: usize, h: usize, se: &[bool], r: usize, highest: bool) -> (out: Vec<u8>)
    requires
        gray@.len() == w * h,
        r <= 0x7fff_ffff,
        se@.len() == (2 * r + 1) * (2 * r + 1),
    ensures
        out@ == morphed(gray@, w as int, h as int, by_table(se@, r as int), highest),
{
    let n: usize = gray.len();
    let mut out: Vec<u8> = Vec::new();
    let mut i: usize = 0;
    let ghost goal = morphed(gray@, w as int, h as int, by_table(se@, r as int), highest);
    while i < n
        invariant
            n == w * h,
            gray@.len() == n,
            r <= 0x7fff_ffff,
            se@.len() == (2 * r + 1) * (2 * r + 1),
            i <= n,
            goal == morphed(gray@, w as int, h as int, by_table(se@, r as int), highest),
            out@ == goal.take(i as int),
        decreases n - i,
    {
        proof {
            lemma_position(w as int, h as int, i as int);
        }
        out.push(pick_at(gray, w, h, se, r, highest, i % w, i / w));
        i = i + 1;
        proof {
            assert(out@ =~= goal.take(i as int));
        }
    }
    proof {
        assert(out@ =~= goal);
    }
    out
}

/// The lowest tone in the marked neighbourhood of each pixel.
pub fn morph_min(gray: &[u8], rw: usize, rh: usize, se: &[bool], r: usize) -> (out: Vec<u8>)
    requires
        gray@.len() == rw * rh,
        se@.len() == (2 * r + 1) * (2 * r + 1),
    ensures
        out@ == morphed(gray@, rw as int, rh as int, by_table(se@, r as int), false),
{
    let cells: usize = se.len();
    proof {
        lemma_table_reach(r as int, cells as int);
    }
    morph(gray, rw, rh, se, r, false)
}

/// The highest tone in the marked neighbourhood of each pixel.
pub fn morph_max(gray: &[u8], rw: usize, rh: usize, se: &[bool], r: usize) -> (out: Vec<u8>)
    requires
        gray@.len() == rw * rh,
        se@.len() == (2 * r + 1) * (2 * r + 1),
    ensures
        out@ == morphed(gray@, rw as int, rh as int, by_table(se@, r as int), true),
{
    let cells: usize = se.len();
    proof {
        lemma_table_reach(r as int, cells as int);
    }
    morph(gray, rw, rh, se, r, true)
}

/// A table that fits into memory reaches less than 2^31 cells.
proof fn lemma_table_reach(r: int, cells: int)
    requires
        0 <= r,
        cells == (2 * r + 1) * (2 * r + 1),
        cells <= 0xffff_ffff_ffff_ffff,
    ensures
        r <= 0x7fff_ffff,
{
    if r > 0x7fff_ffff {
        assert(cells >= 0x1_0000_0000 * 0x1_0000_0000) by (nonlinear_arith)
            requires
                cells == (2 * r + 1) * (2 * r + 1),
                2 * r + 1 >= 0x1_0000_0000,
        ;
    }
}

/// The table of a disc of radius 15.5 in a square of side 31.
pub open spec fn disc_table() -> Seq<bool> {
    Seq::new(
        961,
        |i: int|
            4 * ((i % 31 - 15) * (i % 31 - 15) + (i / 31 - 15) * (i / 31 - 15)) <= 961,
    )
}

/// The parts of a picture that stand out from their surroundings.
pub open spec fn stand_out(gray: Seq<u8>, opening: Seq<u8>) -> Seq<u8> {
    Seq::new(
        gray.len(),
        |i: int|
            if gray[i] > opening[i] {
                (gray[i] - opening[i]) as u8
            } else {
                0
            },
    )
}

/// What stands out from an opening by a disc of radius 15.5.
pub open spec fn top_hatted(gray: Seq<u8>, w: int, h: int) -> Seq<u8> {
    stand_out(gray, opened(gray, w, h, by_table(disc_table(), 15)))
}

/// Subtracts an opening from a picture.
pub fn difference(gray: &[u8], opening: &[u8]) -> (out: Vec<u8>)
    requires
        gray@.len() == opening@.len(),
    ensures
        out@ == stand_out(gray@, opening@),
{
    let n: usize = gray.len();
    let mut out: Vec<u8> = Vec::new();
    let mut i: usize = 0;
    while i < n
        invariant
            n == gray@.len(),
            n == opening@.len(),
            i <= n,
            out@ == stand_out(gray@, opening@).take(i as int),
        decreases n - i,
    {
        let d: u8 = if gray[i] > opening[i] {
            gray[i] - opening[i]
        } else {
            0
        };
        out.push(d);
        i = i + 1;
        proof {
            assert(out@ =~= stand_out(gray@, opening@).take(i as int));
        }
    }
    proof {
        assert(out@ =~= stand_out(gray@, opening@));
    }
    out
}

/// What stands out from an opening by a disc of radius 15.5.
pub fn top_hat(gray: &[u8], rw: usize, rh: usize) -> (out: Vec<u8>)
    requires
        gray@.len() == rw * rh,
    ensures
        out@ == top_hatted(gray@, rw as int, rh as int),
{
    let mut se: Vec<bool> = Vec::new();
    let mut i: usize = 0;
    while i < 961
        invariant
            i <= 961,
            se@ == disc_table().take(i as int),
        decreases 961 - i,
    {
        let dx: i64 = (i % 31) as i64 - 15;
        let dy: i64 = (i / 31) as i64 - 15;
        proof {
            assert(0 <= dx * dx <= 225) by (nonlinear_arith)
                requires
                    -15 <= dx <= 15,
            ;
            assert(0 <= dy * dy <= 225) by (nonlinear_arith)
                requires
                    -15 <= dy <= 15,
            ;
        }
        se.push(4 * (dx * dx + dy * dy) <= 961);
        i = i + 1;
        proof {
            assert(se@ =~= disc_table().take(i as int));
        }
    }
    proof {
        assert(se@ =~= disc_table());
        assert((2 * 15usize + 1) * (2 * 15usize + 1) == 961) by (nonlinear_arith);
    }
    let low = morph_min(gray, rw, rh, se.as_slice(), 15);
    let opening = morph_max(low.as_slice(), rw, rh, se.as_slice(), 15);
    difference(gray, opening.as_slice())
}

/// `m` is the highest (or lowest) of the tones at `lo..hi`.
pub open spec fn is_extreme(src: Seq<u8>, lo: int, hi: int, highest: bool, m: u8) -> bool {
    &&& forall|k: int| lo <= k < hi ==> beats(highest, m, #[trigger] src[k])
    &&& exists|k: int| lo <= k < hi && #[trigger] src[k] == m
}

/// The start of the window of reach `half` around `c`.
pub open spec fn window_start(c: int, half: int) -> int {
    if c < half {
        0
    } else {
        c - half
    }
}

/// The end of the window of reach `half` around `c` in a row of `n` tones.
pub open spec fn window_end(c: int, half: int, n: int) -> int {
    if c + half + 1 > n {
        n
    } else {
        c + half + 1
    }
}

/// Some waiting position at or after `k` beats `k`.
spec fn guarded(src: Seq<u8>, q: Seq<usize>, k: int, highest: bool) -> bool {
    exists|a: int|
        0 <= a < q.len() && #[trigger] q[a] >= k && beats(highest, src[q[a] as int], src[k])
}

/// The waiting positions of `slide_center`: each beats all behind it, and every
/// position from `lo` to `upto` is beaten by one not before it.
spec fn queue_ok(src: Seq<u8>, q: Seq<usize>, lo: int, upto: int, highest: bool) -> bool {
    &&& forall|a: int| 0 <= a < q.len() ==> lo <= #[trigger] q[a] < upto
    &&& forall|a: int, b: int|
        #![trigger q[a], q[b]]
        0 <= a < b < q.len() ==> q[a] < q[b] && beats(highest, src[q[a] as int], src[q[b] as int])
    &&& forall|k: int| lo <= k < upto ==> #[trigger] guarded(src, q, k, highest)
}

/// The queue after position `i` has driven out those it beats: the first `len`
/// stay.
proof fn lemma_enqueue(src: Seq<u8>, q: Seq<usize>, len: int, i: usize, lo: int, highest: bool)
    requires
        i < src.len(),
        0 <= lo <= i,
        0 <= len <= q.len(),
        queue_ok(src, q, lo, i as int, highest),
        forall|a: int|
            len <= a < q.len() ==> beats(highest, src[i as int], src[(#[trigger] q[a]) as int]),
        len > 0 ==> !beats(highest, src[i as int], src[q[len - 1] as int]),
    ensures
        queue_ok(src, q.take(len).push(i), lo, i + 1, highest),
{
    let next = q.take(len).push(i);
    assert forall|a: int, b: int|
        #![trigger next[a], next[b]]
        0 <= a < b < next.len() implies next[a] < next[b] && beats(
        highest,
        src[next[a] as int],
        src[next[b] as int],
    ) by {
        assert(next[a] == q[a]);
        if b < len {
            assert(next[b] == q[b]);
        } else if a < len - 1 {
            assert(q[a] < q[len - 1]);
        }
    }
    assert forall|a: int| 0 <= a < next.len() implies lo <= #[trigger] next[a] < i + 1 by {
        if a < len {
            assert(next[a] == q[a]);
        }
    }
    assert forall|k: int| lo <= k < i + 1 implies #[trigger] guarded(src, next, k, highest) by {
        assert(next[len] == i);
        if k < i {
            assert(guarded(src, q, k, highest));
            let a = choose|a: int|
                0 <= a < q.len() && #[trigger] q[a] >= k && beats(
                    highest,
                    src[q[a] as int],
                    src[k],
                );
            if a < len {
                assert(next[a] == q[a]);
            }
        }
    }
}

/// The queue without its first `gone` positions, all of them before `left`.
proof fn lemma_retire(
    src: Seq<u8>,
    q: Seq<usize>,
    gone: int,
    lo: int,
    left: int,
    upto: int,
    highest: bool,
)
    requires
        0 <= lo <= left < upto <= src.len(),
        0 <= gone <= q.len(),
        queue_ok(src, q, lo, upto, highest),
        forall|a: int| 0 <= a < gone ==> (#[trigger] q[a]) < left,
        gone < q.len() ==> q[gone] >= left,
    ensures
        gone < q.len(),
        queue_ok(src, q.skip(gone), left, upto, highest),
        is_extreme(src, left, upto, highest, src[q[gone] as int]),
{
    let next = q.skip(gone);
    assert forall|k: int| left <= k < upto implies #[trigger] guarded(src, next, k, highest) by {
        assert(guarded(src, q, k, highest));
        let a = choose|a: int|
            0 <= a < q.len() && #[trigger] q[a] >= k && beats(highest, src[q[a] as int], src[k]);
        assert(a >= gone);
        assert(next[a - gone] == q[a]);
    }
    assert(guarded(src, next, left, highest));
    assert(next[0] == q[gone]);
    assert forall|a: int| 0 <= a < next.len() implies left <= #[trigger] next[a] < upto by {
        assert(next[a] == q[a + gone]);
        if a > 0 {
            assert(q[gone] < q[a + gone]);
        }
    }
    assert forall|a: int, b: int|
        #![trigger next[a], next[b]]
        0 <= a < b < next.len() implies next[a] < next[b] && beats(
        highest,
        src[next[a] as int],
        src[next[b] as int],
    ) by {
        assert(next[a] == q[a + gone] && next[b] == q[b + gone]);
    }
    let f = q[gone] as int;
    assert forall|k: int| left <= k < upto implies beats(highest, src[f], #[trigger] src[k]) by {
        assert(guarded(src, next, k, highest));
        let a = choose|a: int|
            0 <= a < next.len() && #[trigger] next[a] >= k && beats(
                highest,
                src[next[a] as int],
                src[k],
            );
        if a > 0 {
            assert(beats(highest, src[next[0] as int], src[next[a] as int]));
        }
    }
    assert(left <= f < upto && src[f] == src[f]);
}

/// Puts position `i` behind the waiting ones, dropping those it beats.
fn enqueue(
    src: &[u8],
    dq: &mut Vec<usize>,
    head: usize,
    i: usize,
    highest: bool,
    Ghost(lo): Ghost<int>,
)
    requires
        i < src@.len(),
        head <= old(dq)@.len(),
        0 <= lo <= i,
        queue_ok(src@, old(dq)@.skip(head as int), lo, i as int, highest),
    ensures
        head < final(dq)@.len(),
        queue_ok(src@, final(dq)@.skip(head as int), lo, i + 1, highest),
{
    let ghost given = dq@;
    let ghost q = dq@.skip(head as int);
    let mut len: usize = dq.len();
    while len > head && wins(highest, src[i], src[dq[len - 1]])
        invariant
            i < src@.len(),
            head <= len <= given.len(),
            dq@ == given,
            q == given.skip(head as int),
            queue_ok(src@, q, lo, i as int, highest),
            forall|a: int| 0 <= a < q.len() ==> given[head + a] == #[trigger] q[a],
            len > head ==> given[len - 1] == q[len - 1 - head] && given[len - 1] < src@.len(),
            forall|a: int|
                len - head <= a < q.len() ==> beats(
                    highest,
                    src@[i as int],
                    src@[(#[trigger] q[a]) as int],
                ),
        decreases len,
    {
        len = len - 1;
        proof {
            if len > head {
                assert(given[head + (len - 1 - head)] == q[len - 1 - head]);
            }
        }
    }
    proof {
        lemma_enqueue(src@, q, len - head, i, lo, highest);
    }
    dq.truncate(len);
    dq.push(i);
    proof {
        assert(dq@.skip(head as int) =~= q.take(len - head).push(i));
    }
}

/// Drops the waiting positions before `left` and tells where the rest begin.
fn retire(
    dq: &Vec<usize>,
    head: usize,
    left: usize,
    highest: bool,
    Ghost(src): Ghost<Seq<u8>>,
    Ghost(lo): Ghost<int>,
    Ghost(upto): Ghost<int>,
) -> (r: usize)
    requires
        head <= dq@.len(),
        0 <= lo <= left < upto <= src.len(),
        queue_ok(src, dq@.skip(head as int), lo, upto, highest),
    ensures
        head <= r < dq@.len(),
        queue_ok(src, dq@.skip(r as int), left as int, upto, highest),
        dq@[r as int] < upto,
        is_extreme(src, left as int, upto, highest, src[dq@[r as int] as int]),
{
    let ghost q = dq@.skip(head as int);
    let mut at: usize = head;
    while at < dq.len() && dq[at] < left
        invariant
            head <= at <= dq@.len(),
            q == dq@.skip(head as int),
            forall|a: int| 0 <= a < at - head ==> (#[trigger] q[a]) < left,
        decreases dq@.len() - at,
    {
        proof {
            assert(q[at - head] == dq@[at as int]);
        }
        at = at + 1;
    }
    proof {
        let gone = at - head;
        if gone < q.len() {
            assert(q[gone] == dq@[at as int]);
        }
        lemma_retire(src, q, gone, lo, left as int, upto, highest);
        assert(q[gone] == dq@[at as int]);
        assert(dq@.skip(at as int) =~= q.skip(gone));
        assert(q[gone] < upto);
    }
    at
}

/// The highest (or lowest) tone in the window of reach `half` around each
/// position of a row, in one pass with a queue of candidates.
pub fn slide_center(src: &[u8], half: usize, highest: bool) -> (out: Vec<u8>)
    ensures
        out@.len() == src@.len(),
        forall|c: int|
            0 <= c < src@.len() ==> is_extreme(
                src@,
                window_start(c, half as int),
                window_end(c, half as int, src@.len() as int),
                highest,
                #[trigger] out@[c],
            ),
{
    let n: usize = src.len();
    let mut out: Vec<u8> = Vec::new();
    let mut dq: Vec<usize> = Vec::new();
    let mut head: usize = 0;
    let ghost mut lo: int = 0;
    let mut i: usize = 0;
    while i < n
        invariant
            n == src@.len(),
            i <= n,
            head <= dq@.len(),
            queue_ok(src@, dq@.skip(head as int), lo, i as int, highest),
            out@.len() == (if i > half {
                i - half
            } else {
                0
            }),
            lo == (if i > 2 * half + 1 {
                i - 1 - 2 * half
            } else {
                0
            }),
            forall|c: int|
                0 <= c < out@.len() ==> is_extreme(
                    src@,
                    window_start(c, half as int),
                    window_end(c, half as int, n as int),
                    highest,
                    #[trigger] out@[c],
                ),
        decreases n - i,
    {
        enqueue(src, &mut dq, head, i, highest, Ghost(lo));
        if i >= half {
            let center: usize = i - half;
            let left: usize = if center > half {
                center - half
            } else {
                0
            };
            head = retire(&dq, head, left, highest, Ghost(src@), Ghost(lo), Ghost(i + 1));
            proof {
                lo = left as int;
            }
            out.push(src[dq[head]]);
        }
        i = i + 1;
    }
    let mut center: usize = out.len();
    while center < n
        invariant
            n == src@.len(),
            n > half ==> center >= n - half,
            center == out@.len(),
            center <= n,
            head <= dq@.len(),
            queue_ok(src@, dq@.skip(head as int), lo, n as int, highest),
            0 <= lo,
            lo <= window_start(center as int, half as int),
            forall|c: int|
                0 <= c < out@.len() ==> is_extreme(
                    src@,
                    window_start(c, half as int),
                    window_end(c, half as int, n as int),
                    highest,
                    #[trigger] out@[c],
                ),
        decreases n - center,
    {
        let left: usize = if center > half {
            center - half
        } else {
            0
        };
        head = retire(&dq, head, left, highest, Ghost(src@), Ghost(lo), Ghost(n as int));
        proof {
            lo = left as int;
        }
        out.push(src[dq[head]]);
        center = center + 1;
    }
    out
}

/// The half width of an ellipse of radius `r` at height `dy`.
pub open spec fn half_width(r: int, dy: int) -> int {
    if r == 0 {
        0
    } else {
        let radius = whole(r);
        let square = whole(dy).spec_times(whole(dy));
        let v = whole(1).spec_minus(square.spec_over(radius.spec_times(radius)));
        if whole(0).spec_lt(v) {
            radius.spec_times(v.spec_sqrt()).spec_round()
        } else {
            0
        }
    }
}

/// The half width of an ellipse of radius `r` at height `dy`.
pub fn ellipse_half(r: usize, dy: i64) -> (half: i64)
    ensures
        half == half_width(r as int, dy as int),
        half >= 0,
{
    if r == 0 {
        return 0;
    }
    let radius = Double::from_count(r);
    let height = Double::from_int(dy);
    let square = height.times(height);
    let v = Double::from_int(1).minus(square.over(radius.times(radius)));
    if Double::zero().less(v) {
        radius.times(v.sqrt()).round()
    } else {
        0
    }
}

/// The ellipse of radius `r`.
pub open spec fn ellipse(r: int) -> spec_fn(int, int) -> bool {
    |dx: int, dy: int|
        -r <= dy <= r && -half_width(r, dy) <= dx <= half_width(r, dy)
}

/// The pick over the offsets of an ellipse above row offset `d`.
spec fn is_pick_above(
    gray: Seq<u8>,
    w: int,
    h: int,
    r: int,
    highest: bool,
    x: int,
    y: int,
    d: int,
    m: u8,
) -> bool {
    let near = ellipse(r);
    let seen = |ax: int, ay: int| near(ax, ay) && ay < d;
    is_pick(gray, w, h, seen, highest, x, y, m)
}

proof fn lemma_row_outside(
    gray: Seq<u8>,
    w: int,
    h: int,
    r: int,
    highest: bool,
    x: int,
    y: int,
    d: int,
    m: u8,
)
    requires
        is_pick_above(gray, w, h, r, highest, x, y, d, m),
        !(0 <= y + d < h),
    ensures
        is_pick_above(gray, w, h, r, highest, x, y, d + 1, m),
{
    let near = ellipse(r);
    let seen = |ax: int, ay: int| near(ax, ay) && ay < d;
    let next = |ax: int, ay: int| near(ax, ay) && ay < d + 1;
    assert(is_pick(gray, w, h, seen, highest, x, y, m));
    assert forall|sx: int, sy: int|
        #![trigger tone(gray, w, sx, sy)]
        0 <= sx < w && 0 <= sy < h && next(sx - x, sy - y) implies beats(
        highest,
        m,
        tone(gray, w, sx, sy),
    ) by {
        assert(seen(sx - x, sy - y));
    }
    if m != weakest(highest) {
        let (sx, sy) = choose|sx: int, sy: int|
            #![trigger tone(gray, w, sx, sy)]
            0 <= sx < w && 0 <= sy < h && seen(sx - x, sy - y) && tone(gray, w, sx, sy) == m;
        assert(next(sx - x, sy - y));
        assert(tone(gray, w, sx, sy) == m);
    }
    assert(is_pick(gray, w, h, next, highest, x, y, m));
}

proof fn lemma_row_inside(
    gray: Seq<u8>,
    w: int,
    h: int,
    r: int,
    highest: bool,
    x: int,
    y: int,
    d: int,
    half: int,
    m: u8,
    e: u8,
    n: u8,
)
    requires
        gray.len() == w * h,
        is_pick_above(gray, w, h, r, highest, x, y, d, m),
        0 <= x < w,
        0 <= y + d < h,
        -r <= d <= r,
        half == half_width(r, d) || (w <= half && half <= half_width(r, d)),
        half >= 0,
        is_extreme(
            gray.subrange((y + d) * w, (y + d + 1) * w),
            window_start(x, half),
            window_end(x, half, w),
            highest,
            e,
        ),
        n == m || n == e,
        beats(highest, n, m),
        beats(highest, n, e),
    ensures
        is_pick_above(gray, w, h, r, highest, x, y, d + 1, n),
{
    let near = ellipse(r);
    let seen = |ax: int, ay: int| near(ax, ay) && ay < d;
    let next = |ax: int, ay: int| near(ax, ay) && ay < d + 1;
    let row = gray.subrange((y + d) * w, (y + d + 1) * w);
    let sy0 = y + d;
    lemma_cell(w, h, x, sy0);
    assert(is_pick(gray, w, h, seen, highest, x, y, m));
    assert forall|sx: int| 0 <= sx < w implies #[trigger] tone(gray, w, sx, sy0) == row[sx] by {
        lemma_cell(w, h, sx, sy0);
    }
    assert forall|sx: int, sy: int|
        #![trigger tone(gray, w, sx, sy)]
        0 <= sx < w && 0 <= sy < h && next(sx - x, sy - y) implies beats(
        highest,
        n,
        tone(gray, w, sx, sy),
    ) by {
        if sy - y < d {
            assert(seen(sx - x, sy - y));
            assert(beats(highest, m, tone(gray, w, sx, sy)));
        } else {
            assert(sy == sy0);
            assert(tone(gray, w, sx, sy0) == row[sx]);
            assert(window_start(x, half) <= sx < window_end(x, half, w));
            assert(beats(highest, e, row[sx]));
        }
    }
    if n != weakest(highest) {
        if n == m {
            let (sx, sy) = choose|sx: int, sy: int|
                #![trigger tone(gray, w, sx, sy)]
                0 <= sx < w && 0 <= sy < h && seen(sx - x, sy - y) && tone(gray, w, sx, sy) == m;
            assert(next(sx - x, sy - y));
            assert(tone(gray, w, sx, sy) == n);
        } else {
            let k = choose|k: int|
                window_start(x, half) <= k < window_end(x, half, w) && #[trigger] row[k] == e;
            assert(tone(gray, w, k, sy0) == row[k]);
            assert(next(k - x, sy0 - y));
        }
    }
    assert(is_pick(gray, w, h, next, highest, x, y, n));
}

/// The highest (or lowest) tone in the ellipse of radius `r` around each
/// pixel, row by row.
pub fn ellipse_morph(src: &[u8], w: usize, h: usize, r: usize, highest: bool) -> (acc: Vec<u8>)
    requires
        src@.len() == w * h,
        r <= 0x7fff_ffff,
    ensures
        acc@ == morphed(src@, w as int, h as int, ellipse(r as int), highest),
{
    let n: usize = src.len();
    let start: u8 = if highest {
        0
    } else {
        255
    };
    let mut acc: Vec<u8> = vec![start; n];
    let reach: i64 = r as i64;
    let mut d: i64 = -reach;
    proof {
        assert forall|i: int| 0 <= i < n implies is_pick_above(
            src@,
            w as int,
            h as int,
            r as int,
            highest,
            i % w as int,
            i / w as int,
            d as int,
            #[trigger] acc@[i],
        ) by {}
    }
    while d <= reach
        invariant
            n == w * h,
            src@.len() == n,
            acc@.len() == n,
            r <= 0x7fff_ffff,
            reach == r,
            -reach <= d <= reach + 1,
            forall|i: int|
                0 <= i < n ==> is_pick_above(
                    src@,
                    w as int,
                    h as int,
                    r as int,
                    highest,
                    i % w as int,
                    i / w as int,
                    d as int,
                    #[trigger] acc@[i],
                ),
        decreases reach + 1 - d,
    {
        let wide: i64 = ellipse_half(r, d);
        let half: usize = if (wide as i128) < w as i128 {
            wide as usize
        } else {
            w
        };
        let mut y: usize = 0;
        while y < h
            invariant
                n == w * h,
                src@.len() == n,
                acc@.len() == n,
                r <= 0x7fff_ffff,
                reach == r,
                -reach <= d <= reach,
                y <= h,
                half == half_width(r as int, d as int) || (w <= half && half <= half_width(
                    r as int,
                    d as int,
                )),
                forall|i: int|
                    0 <= i < y * w ==> is_pick_above(
                        src@,
                        w as int,
                        h as int,
                        r as int,
                        highest,
                        i % w as int,
                        i / w as int,
                        d + 1,
                        #[trigger] acc@[i],
                    ),
                forall|i: int|
                    y * w <= i < n ==> is_pick_above(
                        src@,
                        w as int,
                        h as int,
                        r as int,
                        highest,
                        i % w as int,
                        i / w as int,
                        d as int,
                        #[trigger] acc@[i],
                    ),
            decreases h - y,
        {
            let sy: i128 = y as i128 + d as i128;
            proof {
                assert((y + 1) * w == y * w + w) by (nonlinear_arith);
                assert((y + 1) * w <= n) by (nonlinear_arith)
                    requires
                        y + 1 <= h,
                        n == w * h,
                ;
            }
            if sy >= 0 && sy < h as i128 {
                let line: usize = sy as usize;
                proof {
                    assert(line * w <= (line + 1) * w && (line + 1) * w <= n && (line + 1) * w
                        == line * w + w) by (nonlinear_arith)
                        requires
                            line + 1 <= h,
                            n == w * h,
                    ;
                }
                let row = slice_subrange(src, line * w, line * w + w);
                let ext = slide_center(row, half, highest);
                let mut x: usize = 0;
                while x < w
                    invariant
                        n == w * h,
                        src@.len() == n,
                        acc@.len() == n,
                        -reach <= d <= reach,
                        reach == r,
                        x <= w,
                        y < h,
                        (y + 1) * w == y * w + w,
                        (y + 1) * w <= n,
                        line == y + d,
                        line < h,
                        row@ == src@.subrange(line * w, (line + 1) * w),
                        row@.len() == w,
                        ext@.len() == w,
                        half == half_width(r as int, d as int) || (w <= half && half <= half_width(
                            r as int,
                            d as int,
                        )),
                        forall|c: int|
                            0 <= c < w ==> is_extreme(
                                row@,
                                window_start(c, half as int),
                                window_end(c, half as int, w as int),
                                highest,
                                #[trigger] ext@[c],
                            ),
                        forall|i: int|
                            0 <= i < y * w + x ==> is_pick_above(
                                src@,
                                w as int,
                                h as int,
                                r as int,
                                highest,
                                i % w as int,
                                i / w as int,
                                d + 1,
                                #[trigger] acc@[i],
                            ),
                        forall|i: int|
                            y * w + x <= i < n ==> is_pick_above(
                                src@,
                                w as int,
                                h as int,
                                r as int,
                                highest,
                                i % w as int,
                                i / w as int,
                                d as int,
                                #[trigger] acc@[i],
                            ),
                    decreases w - x,
                {
                    proof {
                        lemma_cell(w as int, h as int, x as int, y as int);
                    }
                    let i: usize = y * w + x;
                    let ghost old_acc = acc@;
                    let v: u8 = better(highest, acc[i], ext[x]);
                    proof {
                        lemma_row_inside(
                            src@,
                            w as int,
                            h as int,
                            r as int,
                            highest,
                            x as int,
                            y as int,
                            d as int,
                            half as int,
                            acc@[i as int],
                            ext@[x as int],
                            v,
                        );
                    }
                    acc.set(i, v);
                    proof {
                        assert forall|k: int| 0 <= k < y * w + x + 1 implies is_pick_above(
                            src@,
                            w as int,
                            h as int,
                            r as int,
                            highest,
                            k % w as int,
                            k / w as int,
                            d + 1,
                            #[trigger] acc@[k],
                        ) by {
                            if k != i {
                                assert(acc@[k] == old_acc[k]);
                            }
                        }
                        assert forall|k: int| y * w + x + 1 <= k < n implies is_pick_above(
                            src@,
                            w as int,
                            h as int,
                            r as int,
                            highest,
                            k % w as int,
                            k / w as int,
                            d as int,
                            #[trigger] acc@[k],
                        ) by {
                            assert(acc@[k] == old_acc[k]);
                        }
                    }
                    x = x + 1;
                }
            } else {
                proof {
                    assert forall|i: int| 0 <= i < (y + 1) * w implies is_pick_above(
                        src@,
                        w as int,
                        h as int,
                        r as int,
                        highest,
                        i % w as int,
                        i / w as int,
                        d + 1,
                        #[trigger] acc@[i],
                    ) by {
                        if i >= y * w {
                            lemma_cell(w as int, h as int, i - y * w, y as int);
                            lemma_row_outside(
                                src@,
                                w as int,
                                h as int,
                                r as int,
                                highest,
                                i % w as int,
                                i / w as int,
                                d as int,
                                acc@[i],
                            );
                        }
                    }
                }
            }
            y = y + 1;
        }
        proof {
            assert(h * w == n) by (nonlinear_arith)
                requires
                    n == w * h,
            ;
        }
        d = d + 1;
    }
    proof {
        let near = ellipse(r as int);
        assert forall|i: int| 0 <= i < n implies acc@[i] == #[trigger] pick(
            src@,
            w as int,
            h as int,
            near,
            highest,
            i % w as int,
            i / w as int,
        ) by {
            let (x, y) = (i % w as int, i / w as int);
            let m = acc@[i];
            assert(is_pick_above(src@, w as int, h as int, r as int, highest, x, y, d as int, m));
            let seen = |ax: int, ay: int| near(ax, ay) && ay < d;
            assert(is_pick(src@, w as int, h as int, seen, highest, x, y, m));
            assert forall|sx: int, sy: int|
                #![trigger tone(src@, w as int, sx, sy)]
                0 <= sx < w && 0 <= sy < h && near(sx - x, sy - y) implies beats(
                highest,
                m,
                tone(src@, w as int, sx, sy),
            ) by {
                assert(seen(sx - x, sy - y));
            }
            assert(is_pick(src@, w as int, h as int, near, highest, x, y, m));
            lemma_pick(src@, w as int, h as int, near, highest, x, y, m);
        }
        assert(acc@ =~= morphed(src@, w as int, h as int, near, highest));
    }
    acc
}

/// The opening of a picture by an ellipse of radius `r`.
pub fn ellipse_opening(src: &[u8], w: usize, h: usize, r: usize) -> (out: Vec<u8>)
    requires
        src@.len() == w * h,
        r <= 0x7fff_ffff,
    ensures
        out@ == opened(src@, w as int, h as int, ellipse(r as int)),
{
    let low = ellipse_morph(src, w, h, r, false);
    ellipse_morph(low.as_slice(), w, h, r, true)
}

/// There is a pick: the search starts at a tone `v` that none beats.
proof fn lemma_pick_exists(
    gray: Seq<u8>,
    w: int,
    h: int,
    near: spec_fn(int, int) -> bool,
    highest: bool,
    x: int,
    y: int,
    v: u8,
)
    requires
        forall|sx: int, sy: int|
            #![trigger tone(gray, w, sx, sy)]
            0 <= sx < w && 0 <= sy < h && near(sx - x, sy - y) ==> beats(
                highest,
                v,
                tone(gray, w, sx, sy),
            ),
    ensures
        is_pick(gray, w, h, near, highest, x, y, pick(gray, w, h, near, highest, x, y)),
    decreases
            (if highest {
                v as int
            } else {
                255 - v
            }),
{
    if v == weakest(highest) || exists|sx: int, sy: int|
        #![trigger tone(gray, w, sx, sy)]
        0 <= sx < w && 0 <= sy < h && near(sx - x, sy - y) && tone(gray, w, sx, sy) == v {
        assert(is_pick(gray, w, h, near, highest, x, y, v));
    } else {
        let next = if highest {
            (v - 1) as u8
        } else {
            (v + 1) as u8
        };
        lemma_pick_exists(gray, w, h, near, highest, x, y, next);
    }
}

/// An opening by a symmetric neighbourhood is nowhere brighter than the
/// picture.
pub proof fn lemma_opened_below(
    gray: Seq<u8>,
    w: int,
    h: int,
    near: spec_fn(int, int) -> bool,
    i: int,
)
    requires
        0 <= w,
        0 <= h,
        gray.len() == w * h,
        0 <= i < w * h,
        forall|dx: int, dy: int| #[trigger] near(dx, dy) ==> near(-dx, -dy),
    ensures
        opened(gray, w, h, near)[i] <= gray[i],
{
    lemma_position(w, h, i);
    let (x, y) = (i % w, i / w);
    let low = morphed(gray, w, h, near, false);
    let m = pick(low, w, h, near, true, x, y);
    lemma_pick_exists(low, w, h, near, true, x, y, 255);
    if m != 0 {
        let (sx, sy) = choose|sx: int, sy: int|
            #![trigger tone(low, w, sx, sy)]
            0 <= sx < w && 0 <= sy < h && near(sx - x, sy - y) && tone(low, w, sx, sy) == m;
        lemma_cell(w, h, sx, sy);
        lemma_pick_exists(gray, w, h, near, false, sx, sy, 0);
        assert(low[sy * w + sx] == pick(gray, w, h, near, false, sx, sy));
        assert(near(-(sx - x), -(sy - y)));
        assert(near(x - sx, y - sy)) by {
            assert(-(sx - x) == x - sx && -(sy - y) == y - sy);
        }
        assert(beats(false, m, tone(gray, w, x, y)));
    }
}

/// An opening by an ellipse is nowhere brighter than the picture.
pub proof fn lemma_ellipse_opened_below(gray: Seq<u8>, w: int, h: int, r: int, i: int)
    requires
        0 <= w,
        0 <= h,
        gray.len() == w * h,
        0 <= i < w * h,
    ensures
        opened(gray, w, h, ellipse(r))[i] <= gray[i],
{
    let near = ellipse(r);
    assert forall|dx: int, dy: int| #[trigger] near(dx, dy) implies near(-dx, -dy) by {
        lemma_square_of_opposite(dy);
    }
    lemma_opened_below(gray, w, h, near, i);
}

/// The rectangle that reaches `rx` columns and `ry` rows.
pub open spec fn rectangle(rx: int, ry: int) -> spec_fn(int, int) -> bool {
    |dx: int, dy: int| -rx <= dx <= rx && -ry <= dy <= ry
}

/// The highest (or lowest) tone of each row's window.
fn row_windows(src: &[u8], w: usize, h: usize, rx: usize, highest: bool) -> (r: Vec<u8>)
    requires
        src@.len() == w * h,
    ensures
        r@.len() == src@.len(),
        forall|x: int, y: int|
            0 <= x < w && 0 <= y < h ==> row_peak(
                src@,
                w as int,
                rx as int,
                highest,
                x,
                y,
                #[trigger] tone(r@, w as int, x, y),
            ),
{
    let n: usize = src.len();
    let mut out: Vec<u8> = Vec::new();
    let mut y: usize = 0;
    while y < h
        invariant
            n == w * h,
            src@.len() == n,
            y <= h,
            out@.len() == y * w,
            forall|a: int, b: int|
                0 <= a < w && 0 <= b < y ==> row_peak(
                    src@,
                    w as int,
                    rx as int,
                highest,
                    a,
                    b,
                    #[trigger] tone(out@, w as int, a, b),
                ),
        decreases h - y,
    {
        proof {
            assert((y + 1) * w == y * w + w && (y + 1) * w <= n) by (nonlinear_arith)
                requires
                    y + 1 <= h,
                    n == w * h,
            ;
        }
        let row = slice_subrange(src, y * w, y * w + w);
        let mut peaks = slide_center(row, rx, highest);
        let ghost before = out@;
        let ghost tops = peaks@;
        out.append(&mut peaks);
        proof {
            assert forall|a: int, b: int| 0 <= a < w && 0 <= b < y + 1 implies row_peak(
                src@,
                w as int,
                rx as int,
                highest,
                a,
                b,
                #[trigger] tone(out@, w as int, a, b),
            ) by {
                lemma_cell(w as int, h as int, a, b);
                if b < y {
                    lemma_cell(w as int, y as int, a, b);
                    assert(w * y == y * w) by (nonlinear_arith);
                    assert(tone(out@, w as int, a, b) == tone(before, w as int, a, b));
                } else {
                    assert(tone(out@, w as int, a, b) == tops[a]);
                    assert(row@ =~= src@.subrange(b * w, (b + 1) * w));
                }
            }
        }
        y = y + 1;
    }
    proof {
        assert(h * w == w * h) by (nonlinear_arith);
    }
    out
}

/// `m` is the highest (or lowest) tone within `rx` columns of `(x, y)` in its row.
spec fn row_peak(src: Seq<u8>, w: int, rx: int, highest: bool, x: int, y: int, m: u8) -> bool {
    is_extreme(src.subrange(y * w, (y + 1) * w), window_start(x, rx), window_end(x, rx, w), highest, m)
}

/// The tones of column `x`.
spec fn column(s: Seq<u8>, w: int, h: int, x: int) -> Seq<u8> {
    Seq::new(h as nat, |y: int| tone(s, w, x, y))
}

fn column_of(s: &[u8], w: usize, h: usize, x: usize) -> (r: Vec<u8>)
    requires
        s@.len() == w * h,
        x < w,
    ensures
        r@ == column(s@, w as int, h as int, x as int),
{
    let n: usize = s.len();
    let mut out: Vec<u8> = Vec::new();
    let mut y: usize = 0;
    while y < h
        invariant
            n == w * h,
            s@.len() == n,
            x < w,
            y <= h,
            out@ == column(s@, w as int, h as int, x as int).take(y as int),
        decreases h - y,
    {
        proof {
            lemma_cell(w as int, h as int, x as int, y as int);
        }
        out.push(s[y * w + x]);
        y = y + 1;
        proof {
            assert(out@ =~= column(s@, w as int, h as int, x as int).take(y as int));
        }
    }
    proof {
        assert(out@ =~= column(s@, w as int, h as int, x as int));
    }
    out
}

/// The highest (or lowest) tone of the column windows over those of the row
/// windows is that of the rectangle.
proof fn lemma_rectangle_pick(
    src: Seq<u8>,
    tops: Seq<u8>,
    w: int,
    h: int,
    rx: int,
    ry: int,
    highest: bool,
    x: int,
    y: int,
    m: u8,
)
    requires
        src.len() == w * h,
        tops.len() == w * h,
        0 <= x < w,
        0 <= y < h,
        0 <= rx,
        0 <= ry,
        forall|a: int, b: int|
            0 <= a < w && 0 <= b < h ==> row_peak(src, w, rx, highest, a, b, #[trigger] tone(tops, w, a, b)),
        is_extreme(column(tops, w, h, x), window_start(y, ry), window_end(y, ry, h), highest, m),
    ensures
        pick(src, w, h, rectangle(rx, ry), highest, x, y) == m,
{
    let near = rectangle(rx, ry);
    let col = column(tops, w, h, x);
    assert forall|sx: int, sy: int|
        #![trigger tone(src, w, sx, sy)]
        0 <= sx < w && 0 <= sy < h && near(sx - x, sy - y) implies beats(
        highest,
        m,
        tone(src, w, sx, sy),
    ) by {
        lemma_cell(w, h, sx, sy);
        assert(row_peak(src, w, rx, highest, x, sy, tone(tops, w, x, sy)));
        let row = src.subrange(sy * w, (sy + 1) * w);
        assert(row[sx] == tone(src, w, sx, sy));
        assert(col[sy] == tone(tops, w, x, sy));
        assert(beats(highest, m, col[sy]));
        assert(beats(highest, tone(tops, w, x, sy), row[sx]));
    }
    let sy = choose|k: int|
        window_start(y, ry) <= k < window_end(y, ry, h) && #[trigger] col[k] == m;
    assert(col[sy] == tone(tops, w, x, sy));
    assert(row_peak(src, w, rx, highest, x, sy, tone(tops, w, x, sy)));
    let row = src.subrange(sy * w, (sy + 1) * w);
    let sx = choose|k: int|
        window_start(x, rx) <= k < window_end(x, rx, w) && #[trigger] row[k] == m;
    lemma_cell(w, h, sx, sy);
    assert(tone(src, w, sx, sy) == m);
    assert(near(sx - x, sy - y));
    assert(is_pick(src, w, h, near, highest, x, y, m));
    lemma_pick(src, w, h, near, highest, x, y, m);
}

/// The highest (or lowest) tone in the rectangle around each pixel, row
/// windows first, then column windows.
pub fn rect_morph(src: &[u8], w: usize, h: usize, rx: usize, ry: usize, highest: bool) -> (r: Vec<u8>)
    requires
        src@.len() == w * h,
    ensures
        r@ == morphed(src@, w as int, h as int, rectangle(rx as int, ry as int), highest),
{
    let n: usize = src.len();
    let tops = row_windows(src, w, h, rx, highest);
    let mut out: Vec<u8> = vec![0; n];
    let mut x: usize = 0;
    while x < w
        invariant
            n == w * h,
            tops@.len() == n,
            out@.len() == n,
            x <= w,
            forall|a: int, b: int|
                0 <= a < x && 0 <= b < h ==> is_extreme(
                    column(tops@, w as int, h as int, a),
                    window_start(b, ry as int),
                    window_end(b, ry as int, h as int),
                    highest,
                    #[trigger] tone(out@, w as int, a, b),
                ),
        decreases w - x,
    {
        let col = column_of(tops.as_slice(), w, h, x);
        let peaks = slide_center(col.as_slice(), ry, highest);
        let mut y: usize = 0;
        while y < h
            invariant
                n == w * h,
                tops@.len() == n,
                out@.len() == n,
                x < w,
                y <= h,
                peaks@.len() == h,
                col@ == column(tops@, w as int, h as int, x as int),
                forall|b: int|
                    0 <= b < h ==> is_extreme(
                        col@,
                        window_start(b, ry as int),
                        window_end(b, ry as int, h as int),
                        highest,
                        #[trigger] peaks@[b],
                    ),
                forall|a: int, b: int|
                    0 <= a < x && 0 <= b < h ==> is_extreme(
                        column(tops@, w as int, h as int, a),
                        window_start(b, ry as int),
                        window_end(b, ry as int, h as int),
                        highest,
                        #[trigger] tone(out@, w as int, a, b),
                    ),
                forall|b: int|
                    0 <= b < y ==> #[trigger] tone(out@, w as int, x as int, b) == peaks@[b],
            decreases h - y,
        {
            proof {
                lemma_cell(w as int, h as int, x as int, y as int);
            }
            let ghost before = out@;
            out.set(y * w + x, peaks[y]);
            proof {
                assert forall|a: int, b: int| 0 <= a < x && 0 <= b < h implies is_extreme(
                    column(tops@, w as int, h as int, a),
                    window_start(b, ry as int),
                    window_end(b, ry as int, h as int),
                    highest,
                    #[trigger] tone(out@, w as int, a, b),
                ) by {
                    lemma_cell(w as int, h as int, a, b);
                    assert(tone(before, w as int, a, b) == tone(out@, w as int, a, b));
                }
                assert forall|b: int| 0 <= b < y + 1 implies #[trigger] tone(
                    out@,
                    w as int,
                    x as int,
                    b,
                ) == peaks@[b] by {
                    lemma_cell(w as int, h as int, x as int, b);
                    if b < y {
                        assert(tone(before, w as int, x as int, b) == peaks@[b]);
                    }
                }
            }
            y = y + 1;
        }
        proof {
            assert forall|a: int, b: int| 0 <= a < x + 1 && 0 <= b < h implies is_extreme(
                column(tops@, w as int, h as int, a),
                window_start(b, ry as int),
                window_end(b, ry as int, h as int),
                highest,
                #[trigger] tone(out@, w as int, a, b),
            ) by {
                if a == x {
                    assert(tone(out@, w as int, x as int, b) == peaks@[b]);
                }
            }
        }
        x = x + 1;
    }
    proof {
        let near = rectangle(rx as int, ry as int);
        assert forall|i: int| 0 <= i < n implies out@[i] == #[trigger] pick(
            src@,
            w as int,
            h as int,
            near,
            highest,
            i % w as int,
            i / w as int,
        ) by {
            lemma_position(w as int, h as int, i);
            lemma_rectangle_pick(
                src@,
                tops@,
                w as int,
                h as int,
                rx as int,
                ry as int,
                highest,
                i % w as int,
                i / w as int,
                tone(out@, w as int, i % w as int, i / w as int),
            );
        }
        assert(out@ =~= morphed(src@, w as int, h as int, near, highest));
    }
    out
}


/// The opening of a picture by a rectangle.
pub fn rect_opening(src: &[u8], w: usize, h: usize, rx: usize, ry: usize) -> (r: Vec<u8>)
    requires
        src@.len() == w * h,
    ensures
        r@ == opened(src@, w as int, h as int, rectangle(rx as int, ry as int)),
{
    let low = rect_morph(src, w, h, rx, ry, false);
    rect_morph(low.as_slice(), w, h, rx, ry, true)
}

/// An opening by a rectangle is nowhere brighter than the picture.
pub proof fn lemma_rect_opened_below(gray: Seq<u8>, w: int, h: int, rx: int, ry: int, i: int)
    requires
        0 <= w,
        0 <= h,
        gray.len() == w * h,
        0 <= i < w * h,
    ensures
        opened(gray, w, h, rectangle(rx, ry))[i] <= gray[i],
{
    lemma_opened_below(gray, w, h, rectangle(rx, ry), i);
}

/// Taking the highest tones around each pixel darkens none, if a pixel counts
/// among its own surroundings.
pub proof fn lemma_highest_above(
    gray: Seq<u8>,
    w: int,
    h: int,
    near: spec_fn(int, int) -> bool,
    i: int,
)
    requires
        0 <= w,
        0 <= h,
        gray.len() == w * h,
        0 <= i < w * h,
        near(0, 0),
    ensures
        morphed(gray, w, h, near, true)[i] >= gray[i],
{
    lemma_position(w, h, i);
    let (x, y) = (i % w, i / w);
    lemma_pick_exists(gray, w, h, near, true, x, y, 255);
    assert(near(x - x, y - y));
    assert(beats(true, pick(gray, w, h, near, true, x, y), tone(gray, w, x, y)));
}

/// Lowest and highest tones are dual: the highest tones of the inverted picture
/// are the inverted lowest tones, at the borders too.
pub proof fn lemma_lowest_highest_dual(
    gray: Seq<u8>,
    inverted: Seq<u8>,
    w: int,
    h: int,
    near: spec_fn(int, int) -> bool,
    i: int,
)
    requires
        0 <= w,
        0 <= h,
        gray.len() == w * h,
        inverted.len() == w * h,
        forall|k: int| 0 <= k < gray.len() ==> #[trigger] inverted[k] == 255 - gray[k],
        0 <= i < w * h,
    ensures
        morphed(inverted, w, h, near, true)[i] == 255 - morphed(gray, w, h, near, false)[i],
{
    lemma_position(w, h, i);
    let (x, y) = (i % w, i / w);
    lemma_pick_exists(gray, w, h, near, false, x, y, 0);
    let m = pick(gray, w, h, near, false, x, y);
    let n = (255 - m) as u8;
    assert forall|sx: int, sy: int|
        #![trigger tone(inverted, w, sx, sy)]
        0 <= sx < w && 0 <= sy < h && near(sx - x, sy - y) implies beats(
        true,
        n,
        tone(inverted, w, sx, sy),
    ) by {
        lemma_cell(w, h, sx, sy);
        assert(beats(false, m, tone(gray, w, sx, sy)));
    }
    if m != 255 {
        let (sx, sy) = choose|sx: int, sy: int|
            #![trigger tone(gray, w, sx, sy)]
            0 <= sx < w && 0 <= sy < h && near(sx - x, sy - y) && tone(gray, w, sx, sy) == m;
        lemma_cell(w, h, sx, sy);
        assert(tone(inverted, w, sx, sy) == n);
    }
    lemma_pick(inverted, w, h, near, true, x, y, n);
}

/// A picture that is brighter by the same amount everywhere has picks that are
/// brighter by it.
proof fn lemma_morphed_level(
    gray: Seq<u8>,
    lifted: Seq<u8>,
    w: int,
    h: int,
    near: spec_fn(int, int) -> bool,
    highest: bool,
    c: int,
    i: int,
)
    requires
        0 <= w,
        0 <= h,
        gray.len() == w * h,
        lifted.len() == w * h,
        0 <= c,
        forall|k: int| 0 <= k < gray.len() ==> #[trigger] lifted[k] == gray[k] + c,
        near(0, 0),
        0 <= i < w * h,
    ensures
        morphed(lifted, w, h, near, highest)[i] == morphed(gray, w, h, near, highest)[i] + c,
{
    lemma_position(w, h, i);
    let (x, y) = (i % w, i / w);
    lemma_cell(w, h, x, y);
    lemma_pick_exists(
        gray,
        w,
        h,
        near,
        highest,
        x,
        y,
        if highest {
            255
        } else {
            0
        },
    );
    let m = pick(gray, w, h, near, highest, x, y);
    assert(near(x - x, y - y));
    assert(beats(highest, m, tone(gray, w, x, y)));
    let found = |sx: int, sy: int|
        0 <= sx < w && 0 <= sy < h && near(sx - x, sy - y) && tone(gray, w, sx, sy) == m;
    let (ax, ay) = if m == weakest(highest) {
        (x, y)
    } else {
        choose|sx: int, sy: int|
            #![trigger tone(gray, w, sx, sy)]
            0 <= sx < w && 0 <= sy < h && near(sx - x, sy - y) && tone(gray, w, sx, sy) == m
    };
    assert(found(ax, ay));
    lemma_cell(w, h, ax, ay);
    let n = (m + c) as u8;
    assert(tone(lifted, w, ax, ay) == m + c);
    assert forall|sx: int, sy: int|
        #![trigger tone(lifted, w, sx, sy)]
        0 <= sx < w && 0 <= sy < h && near(sx - x, sy - y) implies beats(
        highest,
        n,
        tone(lifted, w, sx, sy),
    ) by {
        lemma_cell(w, h, sx, sy);
        assert(beats(highest, m, tone(gray, w, sx, sy)));
    }
    lemma_pick(lifted, w, h, near, highest, x, y, n);
}

proof fn lemma_disc_centre()
    ensures
        by_table(disc_table(), 15)(0, 0),
{
    assert((0 + 15) * (2 * 15 + 1) + (0 + 15) == 480) by (nonlinear_arith);
    assert(480int % 31 - 15 == 0 && 480int / 31 - 15 == 0);
    assert(disc_table()[480]);
    assert(marked(disc_table(), 15, 0, 0));
}

/// The top hat does not depend on the level of the background: a picture that
/// is brighter by the same amount everywhere has the same.
pub proof fn lemma_top_hat_level(gray: Seq<u8>, lifted: Seq<u8>, w: int, h: int, c: int)
    requires
        0 <= w,
        0 <= h,
        gray.len() == w * h,
        lifted.len() == w * h,
        0 <= c,
        forall|k: int| 0 <= k < gray.len() ==> #[trigger] lifted[k] == gray[k] + c,
    ensures
        top_hatted(lifted, w, h) == top_hatted(gray, w, h),
{
    lemma_disc_centre();
    let near = by_table(disc_table(), 15);
    let (low, low_lifted) = (
        morphed(gray, w, h, near, false),
        morphed(lifted, w, h, near, false),
    );
    assert forall|k: int| 0 <= k < w * h implies #[trigger] low_lifted[k] == low[k] + c by {
        lemma_morphed_level(gray, lifted, w, h, near, false, c, k);
    }
    assert forall|k: int| 0 <= k < w * h implies #[trigger] opened(lifted, w, h, near)[k]
        == opened(gray, w, h, near)[k] + c by {
        lemma_morphed_level(low, low_lifted, w, h, near, true, c, k);
    }
    assert(top_hatted(lifted, w, h) =~= top_hatted(gray, w, h));
}

/// The top hat is nowhere brighter than the picture.
pub proof fn lemma_top_hat_below(gray: Seq<u8>, w: int, h: int, i: int)
    requires
        0 <= i < gray.len(),
    ensures
        top_hatted(gray, w, h)[i] <= gray[i],
{
}

/// A flat picture has no top hat.
pub proof fn lemma_top_hat_flat(gray: Seq<u8>, w: int, h: int, v: u8, i: int)
    requires
        0 <= w,
        0 <= h,
        gray.len() == w * h,
        forall|k: int| 0 <= k < gray.len() ==> #[trigger] gray[k] == v,
        0 <= i < gray.len(),
    ensures
        top_hatted(gray, w, h)[i] == 0,
{
    let black = Seq::new((w * h) as nat, |k: int| 0u8);
    lemma_top_hat_level(black, gray, w, h, v as int);
    lemma_top_hat_below(black, w, h, i);
}

} // verus!
