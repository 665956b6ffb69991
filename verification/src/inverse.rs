//! Undoing a mark: what is seen is `a * C + (1 - a) * background`, so where
//! the coverage and the colour are known the background follows.

use crate::accuracy::{
    amount, close, lemma_clamp_by_amount, lemma_difference_close, lemma_int_amount,
    lemma_max_by_amount, lemma_order_by_amount, lemma_product_close, lemma_quotient_close,
    lemma_ratio_close, lemma_round_by_amount, lemma_short_close, lemma_short_sign, modest, sound,
    within,
};
use crate::boxes::{larger, smaller};
use crate::grid::{lemma_cell, lemma_position};
use crate::blur::{blurred, gauss_blur, roughness, roughness_of};
use crate::learning::{blended, box_bytes, level, level_of, window};
use crate::number::{lemma_number_order, lemma_number_strict, Class, Number};
use crate::outline::set_count;
use crate::placing::{scale_length, scaled_layers, scaled_size};
use crate::raster::{Mask, Picture};
use crate::scaling::scaled_plane;
use crate::text::fails_with;
use crate::watermark_profiles::{lowered, numbers_of, plain_numbers, Edges, Profile};
use vstd::prelude::*;

verus! {

/// When a mark is undone. A limit that is absent does not apply; the limit on
/// what may be left of the mark is 0.6 unless another is given.
#[derive(Clone, Copy)]
pub struct InverseParams {
    pub scale_tol: Option<Number>,
    pub texture_min: Option<Number>,
    pub ghost_max: Option<Number>,
}

/// A mark at its scale, placed in a picture.
pub struct PlacedMark {
    pub alpha: Vec<Number>,
    pub color: Vec<Number>,
    pub tw: usize,
    pub th: usize,
    pub px: usize,
    pub py: usize,
}

impl PlacedMark {
    pub open spec fn fits(&self, picture: &Picture) -> bool {
        &&& self.alpha@.len() == self.tw * self.th
        &&& self.color@.len() == 3 * (self.tw * self.th)
        &&& self.px + self.tw <= picture.width
        &&& self.py + self.th <= picture.height
    }

    /// The position in the picture of cell `i` of the mark.
    pub open spec fn position(&self, picture: &Picture, i: int) -> int {
        (self.py + i / self.tw as int) * picture.width + (self.px + i % self.tw as int)
    }
}

/// The size of a picture is too far from that of the profile.
pub open spec fn is_off_scale(w: int, h: int, reference: Number, tol: Option<Number>) -> bool {
    tol matches Some(t) && t.spec_lt(
        Number::spec_int(smaller(w, h)).spec_over(reference).spec_minus(
            Number::spec_int(1),
        ).spec_abs(),
    )
}

/// The texture is below what is asked.
pub open spec fn is_flat(texture: Number, least: Option<Number>) -> bool {
    least matches Some(t) && texture.spec_lt(t)
}

/// How far the blend of a mark and a restored picture misses what is seen, at
/// the first `n` channels of well covered cells, summed.
pub open spec fn blend_misses(
    obs: &Picture,
    mat: &Picture,
    mark: &PlacedMark,
    n: int,
) -> Number
    decreases n,
{
    if n <= 0 {
        Number::spec_int(0)
    } else {
        let before = blend_misses(obs, mat, mark, n - 1);
        let (i, c) = ((n - 1) / 3, (n - 1) % 3);
        let at = mark.position(obs, i);
        let a = mark.alpha@[i];
        if a.spec_le(level(3, 10)) {
            before
        } else {
            before.spec_plus(
                blended(
                    a,
                    mark.color@[n - 1],
                    Number::spec_int(mat.channel(at, c) as int),
                ).spec_minus(Number::spec_int(obs.channel(at, c) as int)).spec_short().spec_abs(),
            )
        }
    }
}

/// The cells of a mark that are well covered.
pub open spec fn well_covered(mark: &PlacedMark) -> Seq<bool> {
    Seq::new(mark.alpha@.len(), |i: int| !mark.alpha@[i].spec_le(level(3, 10)))
}

/// The mark can explain what is seen: it has at least 20 well covered cells,
/// and misses by 14 at most on average.
pub open spec fn explains(obs: &Picture, mat: &Picture, mark: &PlacedMark) -> bool {
    let n = mark.alpha@.len() as int;
    let core = set_count(well_covered(mark), n);
    core >= 20 && !Number::spec_int(14).spec_lt(
        blend_misses(obs, mat, mark, 3 * n).spec_over(Number::spec_int(3 * core)),
    )
}

fn check_blend(obs: &Picture, mat: &Picture, mark: &PlacedMark) -> (r: bool)
    requires
        obs.wf(),
        mat.wf(),
        obs.width == mat.width,
        obs.height == mat.height,
        mark.fits(obs),
    ensures
        r == explains(obs, mat, mark),
{
    let total: usize = obs.data.len();
    let n: usize = mark.alpha.len();
    let len: usize = mark.color.len();
    let w: usize = obs.width as usize;
    let h: usize = obs.height as usize;
    let mut sum = Number::from_int(0);
    let mut core: usize = 0;
    let mut i: usize = 0;
    while i < n
        invariant
            obs.wf(),
            mat.wf(),
            obs.width == mat.width,
            obs.height == mat.height,
            mark.fits(obs),
            total == obs.data@.len(),
            w == obs.width,
            h == obs.height,
            n == mark.alpha@.len(),
            len == mark.color@.len(),
            i <= n,
            core <= i,
            core == set_count(well_covered(mark), i as int),
            sum == blend_misses(obs, mat, mark, 3 * i),
        decreases n - i,
    {
        let a = mark.alpha[i];
        proof {
            lemma_position(mark.tw as int, mark.th as int, i as int);
            lemma_cell(
                w as int,
                h as int,
                mark.px + i as int % mark.tw as int,
                mark.py + i as int / mark.tw as int,
            );
        }
        let at: usize = (mark.py + i / mark.tw) * w + (mark.px + i % mark.tw);
        if !a.at_most(level_of(3, 10)) {
            core = core + 1;
        }
        let mut c: usize = 0;
        while c < 3
            invariant
                obs.wf(),
                mat.wf(),
                obs.width == mat.width,
                obs.height == mat.height,
                mark.fits(obs),
                i < n,
                n == mark.alpha@.len(),
                len == mark.color@.len(),
                a == mark.alpha@[i as int],
                at == mark.position(obs, i as int),
                at < obs.area(),
                c <= 3,
                sum == blend_misses(obs, mat, mark, 3 * i + c),
            decreases 3 - c,
        {
            if !a.at_most(level_of(3, 10)) {
                let seen = Number::from_int(obs.get(at, c) as i64);
                let ground = Number::from_int(mat.get(at, c) as i64);
                let mixed = a.times(mark.color[3 * i + c]).short().plus(
                    Number::from_int(1).minus(a).short().times(ground).short(),
                ).short();
                sum = sum.plus(mixed.minus(seen).short().abs());
            }
            proof {
                let k = 3 * i + c;
                assert(k / 3 == i && k % 3 == c);
            }
            c = c + 1;
        }
        i = i + 1;
    }
    if core < 20 {
        return false;
    }
    !Number::from_int(14).less(sum.over(Number::from_count(3 * core)))
}

/// The message for a mark that leaves the picture.
pub open spec fn outside_message() -> Seq<char> {
    "profile outside image"@
}

/// The mark is the profile at a scale, placed at `(px, py)`.
pub open spec fn is_placed(
    mark: PlacedMark,
    profile: &Profile,
    px: int,
    py: int,
    scale: Number,
) -> bool {
    let (tw, th) = (
        scaled_size(profile.aw as int, scale),
        scaled_size(profile.ah as int, scale),
    );
    let (aw, ah) = (profile.aw as int, profile.ah as int);
    &&& mark.tw == tw
    &&& mark.th == th
    &&& mark.px == px
    &&& mark.py == py
    &&& mark.alpha@ == scaled_plane(profile.alpha@, aw, ah, 1, tw, th)
    &&& mark.color@ == scaled_plane(profile.color@, aw, ah, 3, tw, th)
}

/// Places a profile's mark in a picture; an error if it leaves the picture, and
/// nothing if the picture's size is too far from that of the profile.
pub fn place_mark(
    obs: &Picture,
    profile: &Profile,
    px: usize,
    py: usize,
    scale: Number,
    params: &InverseParams,
) -> (r: Result<Option<PlacedMark>, String>)
    requires
        obs.wf(),
        profile.wf(),
    ensures
        ({
            let (w, h) = (obs.width as int, obs.height as int);
            if is_off_scale(w, h, profile.ref_short_side, params.scale_tol) {
                r matches Ok(None)
            } else if px + scaled_size(profile.aw as int, scale) > w || py + scaled_size(
                profile.ah as int,
                scale,
            ) > h {
                fails_with(r, outside_message())
            } else {
                r matches Ok(Some(mark)) && is_placed(mark, profile, px as int, py as int, scale)
                    && mark.fits(obs)
            }
        }),
{
    let (w, h): (usize, usize) = (obs.width as usize, obs.height as usize);
    match params.scale_tol {
        Some(tol) => {
            let short = Number::from_count(
                if h < w {
                    h
                } else {
                    w
                },
            );
            let off = short.over(profile.ref_short_side).minus(Number::from_int(1)).abs();
            if tol.less(off) {
                return Ok(None);
            }
        },
        None => {},
    }
    let mut tw: u64 = scale_length(profile.aw, scale);
    if tw < 1 {
        tw = 1;
    }
    let mut th: u64 = scale_length(profile.ah, scale);
    if th < 1 {
        th = 1;
    }
    if px > w || tw > (w - px) as u64 || py > h || th > (h - py) as u64 {
        return Err(String::from_str("profile outside image"));
    }
    let total: usize = obs.data.len();
    proof {
        assert(0 <= tw * th && tw * th <= w * h) by (nonlinear_arith)
            requires
                0 <= tw <= w,
                0 <= th <= h,
        ;
    }
    let (alpha, color, tw, th) = scaled_layers(profile, scale);
    Ok(Some(PlacedMark { alpha, color, tw, th, px, py }))
}

/// Whether a placed mark may be undone: the texture around it is rich enough,
/// and the mark can explain what is seen.
pub fn may_undo(
    obs: &Picture,
    mat: &Picture,
    mark: &PlacedMark,
    texture: Number,
    params: &InverseParams,
) -> (r: bool)
    requires
        obs.wf(),
        mat.wf(),
        obs.width == mat.width,
        obs.height == mat.height,
        mark.fits(obs),
    ensures
        r == (!is_flat(texture, params.texture_min) && explains(obs, mat, mark)),
{
    match params.texture_min {
        Some(t) => {
            if texture.less(t) {
                return false;
            }
        },
        None => {},
    }
    check_blend(obs, mat, mark)
}

/// The gains of the coverage that are tried: from 0.8 to 1.25 in steps of 0.05.
pub open spec fn gain_steps() -> Seq<Number> {
    crate::locating::factors(
        Number::spec_ratio(8, 10),
        Number::spec_ratio(125, 100).spec_plus(Number::spec_ratio(1, 1_000_000_000)),
        Number::spec_ratio(5, 100),
        Number::spec_int(1),
        64,
    )
}

pub fn gains() -> (r: Vec<Number>)
    ensures
        r@ == gain_steps(),
{
    crate::locating::factors_of(
        Number::decimal(8, 10),
        Number::decimal(125, 100).plus(Number::decimal(1, 1_000_000_000)),
        Number::decimal(5, 100),
        Number::from_int(1),
        64,
    )
}

/// The first of the first `n` gains that leaves the least of the mark; a gain
/// at which too little was covered to tell is passed over.
pub open spec fn best_gain(ghosts: Seq<Option<Number>>, n: int) -> Option<int>
    decreases n,
{
    if n <= 0 {
        None
    } else {
        match (best_gain(ghosts, n - 1), ghosts[n - 1]) {
            (before, None) => before,
            (None, Some(_)) => Some(n - 1),
            (Some(k), Some(g)) => if g.spec_lt(ghosts[k].unwrap()) {
                Some(n - 1)
            } else {
                Some(k)
            },
        }
    }
}

/// The most that may be left of the mark.
pub open spec fn ghost_limit(params: &InverseParams) -> Number {
    match params.ghost_max {
        Some(v) => v,
        None => Number::spec_ratio(6, 10),
    }
}

/// The gain that is taken: the best, unless too much of the mark is left.
pub fn choose_gain(ghosts: &[Option<Number>], params: &InverseParams) -> (r: Option<usize>)
    ensures
        match best_gain(ghosts@, ghosts@.len() as int) {
            None => r is None,
            Some(k) => if ghost_limit(params).spec_lt(ghosts@[k].unwrap()) {
                r is None
            } else {
                r matches Some(i) && i == k
            },
        },
        r matches Some(i) ==> i < ghosts@.len() && ghosts@[i as int] is Some,
{
    let n: usize = ghosts.len();
    let mut best: Option<(usize, Number)> = None;
    let mut k: usize = 0;
    while k < n
        invariant
            n == ghosts@.len(),
            k <= n,
            match best {
                None => best_gain(ghosts@, k as int) is None,
                Some(b) => best_gain(ghosts@, k as int) == Some(b.0 as int) && b.0 < k
                    && ghosts@[b.0 as int] == Some(b.1),
            },
        decreases n - k,
    {
        match ghosts[k] {
            None => {},
            Some(g) => {
                let better: bool = match best {
                    None => true,
                    Some(b) => g.less(b.1),
                };
                if better {
                    best = Some((k, g));
                }
            },
        }
        k = k + 1;
    }
    let limit = match params.ghost_max {
        Some(v) => v,
        None => Number::decimal(6, 10),
    };
    match best {
        None => None,
        Some(b) => if limit.less(b.1) {
            None
        } else {
            Some(b.0)
        },
    }
}

/// The coverage of a cell with a gain.
pub open spec fn gained(a: Number, gain: Number) -> Number {
    a.spec_times(gain).spec_clamp(Number::spec_int(0), Number::spec_int(1)).spec_short()
}

/// The background of one channel.
pub open spec fn undone(seen: u8, a: Number, color: Number) -> Number {
    Number::spec_int(seen as int).spec_minus(a.spec_times(color).spec_short()).spec_short().spec_over(
        Number::spec_int(1).spec_minus(a).spec_short().spec_max(level(1, 1000)),
    ).spec_short()
}

/// A background that no byte can hold.
pub open spec fn is_wild(v: Number) -> bool {
    v.spec_lt(Number::spec_int(0).spec_minus(Number::spec_ratio(1, 2)))
        || Number::spec_ratio(2555, 10).spec_lt(v)
}

/// The byte nearest to a number.
pub open spec fn nearest_byte(v: Number) -> u8 {
    larger(
        smaller(v.spec_clamp(Number::spec_int(0), Number::spec_int(255)).spec_round(), 255),
        0,
    ) as u8
}

/// The cell of the mark at position `i` of the picture, if there is one that is
/// undone: covered, and marked in the mask if there is one.
pub open spec fn undone_cell(
    obs: &Picture,
    mark: &PlacedMark,
    gain: Number,
    mask: Option<&Mask>,
    i: int,
) -> Option<int> {
    let w = obs.width as int;
    let (x, y) = (i % w - mark.px, i / w - mark.py);
    let cell = y * mark.tw + x;
    if 0 <= x < mark.tw && 0 <= y < mark.th && !gained(mark.alpha@[cell], gain).spec_le(
        Number::spec_ratio(3, 100),
    ) && (mask matches Some(m) ==> m.data@[i] != 0) {
        Some(cell)
    } else {
        None
    }
}

/// A pixel cannot be undone: it is near white, or a channel comes out wild.
pub open spec fn is_lost(obs: &Picture, mark: &PlacedMark, gain: Number, i: int, cell: int) -> bool {
    let a = gained(mark.alpha@[cell], gain);
    ||| obs.channel(i, 0) >= 252 && obs.channel(i, 1) >= 252 && obs.channel(i, 2) >= 252
    ||| is_wild(undone(obs.channel(i, 0), a, mark.color@[3 * cell]))
    ||| is_wild(undone(obs.channel(i, 1), a, mark.color@[3 * cell + 1]))
    ||| is_wild(undone(obs.channel(i, 2), a, mark.color@[3 * cell + 2]))
}

/// A byte of the picture with the mark undone. A pixel that cannot be undone
/// takes the restored picture's colour.
pub open spec fn undone_byte(
    obs: &Picture,
    mat: &Picture,
    mark: &PlacedMark,
    gain: Number,
    mask: Option<&Mask>,
    j: int,
) -> u8 {
    let (i, c) = (j / 3, j % 3);
    match undone_cell(obs, mark, gain, mask, i) {
        None => obs.data@[j],
        Some(cell) => if is_lost(obs, mark, gain, i, cell) {
            mat.data@[j]
        } else {
            nearest_byte(
                undone(obs.data@[j], gained(mark.alpha@[cell], gain), mark.color@[3 * cell + c]),
            )
        },
    }
}

pub open spec fn undone_bytes(
    obs: &Picture,
    mat: &Picture,
    mark: &PlacedMark,
    gain: Number,
    mask: Option<&Mask>,
) -> Seq<u8> {
    Seq::new(obs.data@.len(), |j: int| undone_byte(obs, mat, mark, gain, mask, j))
}

fn undo_channel(seen: u8, a: Number, color: Number) -> (r: (Number, bool))
    ensures
        r.0 == undone(seen, a, color),
        r.1 == is_wild(undone(seen, a, color)),
{
    let v = Number::from_int(seen as i64).minus(a.times(color).short()).short().over(
        Number::from_int(1).minus(a).short().max(level_of(1, 1000)),
    ).short();
    let wild: bool = v.less(Number::from_int(0).minus(Number::decimal(1, 2))) || Number::decimal(
        2555,
        10,
    ).less(v);
    (v, wild)
}

fn to_nearest(v: Number) -> (r: u8)
    ensures
        r == nearest_byte(v),
{
    let t: i64 = v.clamp(Number::from_int(0), Number::from_int(255)).round();
    if t < 0 {
        0
    } else if t > 255 {
        255
    } else {
        t as u8
    }
}

/// Undoes a mark with a gain: the covered pixels, and with a mask only those
/// that it marks, take the background that follows; the rest stays.
pub fn undo_mark(
    obs: &Picture,
    mat: &Picture,
    mark: &PlacedMark,
    gain: Number,
    mask: Option<&Mask>,
) -> (r: Picture)
    requires
        obs.wf(),
        mat.wf(),
        obs.width == mat.width,
        obs.height == mat.height,
        mark.fits(obs),
        mask matches Some(m) ==> m.wf() && m.width == obs.width && m.height == obs.height,
    ensures
        r.wf(),
        r.width == obs.width,
        r.height == obs.height,
        r.data@ == undone_bytes(obs, mat, mark, gain, mask),
{
    let total: usize = obs.data.len();
    let n: usize = total / 3;
    let cells: usize = mark.alpha.len();
    let len: usize = mark.color.len();
    let w: usize = obs.width as usize;
    let h: usize = obs.height as usize;
    let ghost goal = undone_bytes(obs, mat, mark, gain, mask);
    let mut data: Vec<u8> = Vec::new();
    let mut i: usize = 0;
    while i < n
        invariant
            obs.wf(),
            mat.wf(),
            obs.width == mat.width,
            obs.height == mat.height,
            mark.fits(obs),
            mask matches Some(m) ==> m.wf() && m.width == obs.width && m.height == obs.height,
            total == obs.data@.len(),
            total == 3 * n,
            n == obs.area(),
            cells == mark.alpha@.len(),
            len == mark.color@.len(),
            w == obs.width,
            h == obs.height,
            goal == undone_bytes(obs, mat, mark, gain, mask),
            i <= n,
            data@ == goal.take(3 * i),
        decreases n - i,
    {
        proof {
            lemma_position(w as int, h as int, i as int);
        }
        let (x, y): (usize, usize) = (i % w, i / w);
        let (r0, g0, b0): (u8, u8, u8) = (obs.get(i, 0), obs.get(i, 1), obs.get(i, 2));
        let mut px: (u8, u8, u8) = (r0, g0, b0);
        if x >= mark.px && x < mark.px + mark.tw && y >= mark.py && y < mark.py + mark.th {
            proof {
                lemma_cell(mark.tw as int, mark.th as int, x - mark.px, y - mark.py);
            }
            let cell: usize = (y - mark.py) * mark.tw + (x - mark.px);
            let a = mark.alpha[cell].times(gain).clamp(
                Number::from_int(0),
                Number::from_int(1),
            ).short();
            let open: bool = match mask {
                Some(m) => m.data[i] != 0,
                None => true,
            };
            if open && !a.at_most(Number::decimal(3, 100)) {
                let red = undo_channel(r0, a, mark.color[3 * cell]);
                let green = undo_channel(g0, a, mark.color[3 * cell + 1]);
                let blue = undo_channel(b0, a, mark.color[3 * cell + 2]);
                let lost: bool = (r0 >= 252 && g0 >= 252 && b0 >= 252) || red.1 || green.1
                    || blue.1;
                px =
                if lost {
                    (mat.get(i, 0), mat.get(i, 1), mat.get(i, 2))
                } else {
                    (to_nearest(red.0), to_nearest(green.0), to_nearest(blue.0))
                };
            }
        }
        proof {
            let j = 3 * i as int;
            assert(j / 3 == i && j % 3 == 0);
            assert((j + 1) / 3 == i && (j + 1) % 3 == 1);
            assert((j + 2) / 3 == i && (j + 2) % 3 == 2);
            assert(goal[j] == undone_byte(obs, mat, mark, gain, mask, j));
            assert(goal[j + 1] == undone_byte(obs, mat, mark, gain, mask, j + 1));
            assert(goal[j + 2] == undone_byte(obs, mat, mark, gain, mask, j + 2));
        }
        data.push(px.0);
        data.push(px.1);
        data.push(px.2);
        i = i + 1;
        proof {
            assert(data@ =~= goal.take(3 * i));
        }
    }
    proof {
        assert(data@ =~= goal);
    }
    Picture { width: obs.width, height: obs.height, data }
}

/// The coverage of cell `i` with a gain, before it is rounded.
pub open spec fn gained_fully(mark: &PlacedMark, gain: Number, i: int) -> Number {
    mark.alpha@[i].spec_times(gain).spec_clamp(Number::spec_int(0), Number::spec_int(1))
}

/// What channel `j` of the mark's box holds when the mark is undone with a gain.
pub open spec fn bared(obs: &Picture, mark: &PlacedMark, gain: Number, j: int) -> Number {
    let a = gained_fully(mark, gain, j / 3);
    let seen = Number::spec_int(obs.channel(mark.position(obs, j / 3), j % 3) as int);
    seen.spec_minus(a.spec_times(mark.color@[j])).spec_over(
        Number::spec_int(1).spec_minus(a).spec_max(Number::spec_ratio(1, 1000)),
    ).spec_clamp(Number::spec_int(0), Number::spec_int(255)).spec_short()
}

pub open spec fn bared_plane(obs: &Picture, mark: &PlacedMark, gain: Number) -> Seq<Number> {
    Seq::new(mark.color@.len(), |j: int| bared(obs, mark, gain, j))
}

/// The cells that the mark covers with a gain.
pub open spec fn covered_cells(mark: &PlacedMark, gain: Number) -> Seq<bool> {
    Seq::new(
        mark.alpha@.len(),
        |i: int| Number::spec_ratio(3, 100).spec_lt(gained_fully(mark, gain, i)),
    )
}

/// Cell `i` is compared.
pub open spec fn is_compared(mark: &PlacedMark, gain: Number, i: int) -> bool {
    !gained_fully(mark, gain, i).spec_short().spec_le(Number::spec_ratio(3, 100))
}

/// The least single-precision number.
pub open spec fn single_least() -> Number {
    Number::spec_bits(0xc7ef_ffff_e000_0000)
}

/// How far cell `i` sticks out of its blur: the largest of its channels.
pub open spec fn sticks_out(plane: Seq<Number>, soft: Seq<Number>, i: int) -> Number {
    single_least().spec_max(plane[3 * i].spec_minus(soft[3 * i]).spec_short()).spec_max(
        plane[3 * i + 1].spec_minus(soft[3 * i + 1]).spec_short(),
    ).spec_max(plane[3 * i + 2].spec_minus(soft[3 * i + 2]).spec_short())
}

/// The compared cells among the first `n`: how many, and the sums of their
/// coverages and of how far they stick out.
pub open spec fn ghost_sums(
    mark: &PlacedMark,
    gain: Number,
    plane: Seq<Number>,
    soft: Seq<Number>,
    n: int,
) -> (int, Number, Number)
    decreases n,
{
    if n <= 0 {
        (0, Number::spec_int(0), Number::spec_int(0))
    } else {
        let (count, sx, sy) = ghost_sums(mark, gain, plane, soft, n - 1);
        if is_compared(mark, gain, n - 1) {
            (
                count + 1,
                sx.spec_plus(gained_fully(mark, gain, n - 1).spec_short()),
                sy.spec_plus(sticks_out(plane, soft, n - 1)),
            )
        } else {
            (count, sx, sy)
        }
    }
}

/// The sums of products and squares of the compared cells among the first `n`
/// about their means.
pub open spec fn ghost_moments(
    mark: &PlacedMark,
    gain: Number,
    plane: Seq<Number>,
    soft: Seq<Number>,
    mx: Number,
    my: Number,
    n: int,
) -> (Number, Number, Number)
    decreases n,
{
    if n <= 0 {
        (Number::spec_int(0), Number::spec_int(0), Number::spec_int(0))
    } else {
        let (cov, vx, vy) = ghost_moments(mark, gain, plane, soft, mx, my, n - 1);
        if is_compared(mark, gain, n - 1) {
            let x = gained_fully(mark, gain, n - 1).spec_short().spec_minus(mx);
            let y = sticks_out(plane, soft, n - 1).spec_minus(my);
            (
                cov.spec_plus(x.spec_times(y)),
                vx.spec_plus(x.spec_times(x)),
                vy.spec_plus(y.spec_times(y)),
            )
        } else {
            (cov, vx, vy)
        }
    }
}

/// How much of the mark shows in what is left when it is undone with a gain:
/// the correlation of the coverage with what sticks out of the blur. Nothing
/// where fewer than 50 cells are covered; one where either does not vary.
pub open spec fn ghost_left(
    obs: &Picture,
    mark: &PlacedMark,
    gain: Number,
    kernel: Seq<Number>,
) -> Option<Number> {
    let n = mark.alpha@.len() as int;
    let plane = bared_plane(obs, mark, gain);
    let soft = blurred(plane, mark.tw as int, mark.th as int, 3, kernel);
    let (count, sx, sy) = ghost_sums(mark, gain, plane, soft, n);
    let mx = sx.spec_over(Number::spec_int(count));
    let my = sy.spec_over(Number::spec_int(count));
    let (cov, vx, vy) = ghost_moments(mark, gain, plane, soft, mx, my, n);
    let zero = Number::spec_int(0);
    if set_count(covered_cells(mark, gain), n) < 50 {
        None
    } else if vx.spec_le(zero) || vy.spec_le(zero) {
        Some(Number::spec_int(1))
    } else {
        Some(cov.spec_over(vx.spec_times(vy).spec_sqrt()).spec_abs())
    }
}

fn gain_fully(mark: &PlacedMark, gain: Number, i: usize) -> (r: Number)
    requires
        i < mark.alpha@.len(),
    ensures
        r == gained_fully(mark, gain, i as int),
{
    mark.alpha[i].times(gain).clamp(Number::from_int(0), Number::from_int(1))
}

fn compares(mark: &PlacedMark, gain: Number, i: usize) -> (r: bool)
    requires
        i < mark.alpha@.len(),
    ensures
        r == is_compared(mark, gain, i as int),
{
    !gain_fully(mark, gain, i).short().at_most(Number::decimal(3, 100))
}

fn bare_plane(obs: &Picture, mark: &PlacedMark, gain: Number) -> (r: Vec<Number>)
    requires
        obs.wf(),
        mark.fits(obs),
    ensures
        r@ == bared_plane(obs, mark, gain),
{
    let total: usize = obs.data.len();
    let w: usize = obs.width as usize;
    let h: usize = obs.height as usize;
    let cells: usize = mark.alpha.len();
    let n: usize = mark.color.len();
    let ghost goal = bared_plane(obs, mark, gain);
    let mut out: Vec<Number> = Vec::new();
    let mut j: usize = 0;
    while j < n
        invariant
            obs.wf(),
            mark.fits(obs),
            w == obs.width,
            h == obs.height,
            total == obs.data@.len(),
            cells == mark.alpha@.len(),
            n == mark.color@.len(),
            n == 3 * cells,
            goal == bared_plane(obs, mark, gain),
            j <= n,
            out@ == goal.take(j as int),
        decreases n - j,
    {
        let i: usize = j / 3;
        proof {
            lemma_position(mark.tw as int, mark.th as int, i as int);
            lemma_cell(
                w as int,
                h as int,
                mark.px + i as int % mark.tw as int,
                mark.py + i as int / mark.tw as int,
            );
        }
        let at: usize = (mark.py + i / mark.tw) * w + (mark.px + i % mark.tw);
        let a = gain_fully(mark, gain, i);
        let seen = Number::from_int(obs.get(at, j % 3) as i64);
        let v = seen.minus(a.times(mark.color[j])).over(
            Number::from_int(1).minus(a).max(Number::decimal(1, 1000)),
        );
        out.push(v.clamp(Number::from_int(0), Number::from_int(255)).short());
        j = j + 1;
        proof {
            assert(out@ =~= goal.take(j as int));
        }
    }
    proof {
        assert(out@ =~= goal);
    }
    out
}

fn count_covered(mark: &PlacedMark, gain: Number) -> (r: usize)
    ensures
        r == set_count(covered_cells(mark, gain), mark.alpha@.len() as int),
{
    let n: usize = mark.alpha.len();
    let mut count: usize = 0;
    let mut i: usize = 0;
    while i < n
        invariant
            n == mark.alpha@.len(),
            i <= n,
            count <= i,
            count == set_count(covered_cells(mark, gain), i as int),
        decreases n - i,
    {
        if Number::decimal(3, 100).less(gain_fully(mark, gain, i)) {
            count = count + 1;
        }
        i = i + 1;
    }
    count
}

fn stick_out(plane: &[Number], soft: &[Number], i: usize) -> (r: Number)
    requires
        3 * i + 2 < plane@.len(),
        plane@.len() == soft@.len(),
    ensures
        r == sticks_out(plane@, soft@, i as int),
{
    let total: usize = plane.len();
    Number::from_bits(0xc7ef_ffff_e000_0000).max(plane[3 * i].minus(soft[3 * i]).short()).max(
        plane[3 * i + 1].minus(soft[3 * i + 1]).short(),
    ).max(plane[3 * i + 2].minus(soft[3 * i + 2]).short())
}

/// How much of the mark shows in what is left when it is undone with a gain.
/// `kernel` weighs the blur that it is looked for against.
pub fn ghost_for(obs: &Picture, mark: &PlacedMark, gain: Number, kernel: &[Number]) -> (r: Option<
    Number,
>)
    requires
        obs.wf(),
        mark.fits(obs),
        0 < kernel@.len() <= 1001,
    ensures
        r == ghost_left(obs, mark, gain, kernel@),
{
    if count_covered(mark, gain) < 50 {
        return None;
    }
    let plane = bare_plane(obs, mark, gain);
    let soft = gauss_blur(plane.as_slice(), mark.tw, mark.th, 3, kernel);
    let n: usize = mark.alpha.len();
    let len: usize = mark.color.len();
    let mut count: usize = 0;
    let mut sx = Number::from_int(0);
    let mut sy = Number::from_int(0);
    let mut i: usize = 0;
    while i < n
        invariant
            n == mark.alpha@.len(),
            plane@.len() == 3 * n,
            soft@.len() == 3 * n,
            i <= n,
            count <= i,
            (count as int, sx, sy) == ghost_sums(mark, gain, plane@, soft@, i as int),
        decreases n - i,
    {
        if compares(mark, gain, i) {
            sx = sx.plus(gain_fully(mark, gain, i).short());
            sy = sy.plus(stick_out(plane.as_slice(), soft.as_slice(), i));
            count = count + 1;
        }
        i = i + 1;
    }
    let mx = sx.over(Number::from_count(count));
    let my = sy.over(Number::from_count(count));
    let mut cov = Number::from_int(0);
    let mut vx = Number::from_int(0);
    let mut vy = Number::from_int(0);
    i = 0;
    while i < n
        invariant
            n == mark.alpha@.len(),
            plane@.len() == 3 * n,
            soft@.len() == 3 * n,
            i <= n,
            (cov, vx, vy) == ghost_moments(mark, gain, plane@, soft@, mx, my, i as int),
        decreases n - i,
    {
        if compares(mark, gain, i) {
            let x = gain_fully(mark, gain, i).short().minus(mx);
            let y = stick_out(plane.as_slice(), soft.as_slice(), i).minus(my);
            cov = cov.plus(x.times(y));
            vx = vx.plus(x.times(x));
            vy = vy.plus(y.times(y));
        }
        i = i + 1;
    }
    let zero = Number::from_int(0);
    if vx.at_most(zero) || vy.at_most(zero) {
        return Some(Number::from_int(1));
    }
    Some(cov.over(vx.times(vy).sqrt()).abs())
}

/// The part of a picture in which the texture around a mark is measured: 60
/// columns and 40 rows more on each side.
pub open spec fn texture_edges(obs: &Picture, mark: &PlacedMark) -> Edges {
    (
        lowered(mark.px as int, 60),
        lowered(mark.py as int, 40),
        smaller(mark.px + mark.tw + 60, obs.width as int),
        smaller(mark.py + mark.th + 40, obs.height as int),
    )
}

/// How textured the surroundings of a mark are.
pub open spec fn texture_around(obs: &Picture, mark: &PlacedMark, kernel: Seq<Number>) -> Number {
    let b = texture_edges(obs, mark);
    roughness(plain_numbers(box_bytes(obs, b)), b.2 - b.0, b.3 - b.1, kernel)
}

/// How textured the surroundings of a mark are. `kernel` weighs the blur that
/// they are held against.
pub fn texture_hf(obs: &Picture, mark: &PlacedMark, kernel: &[Number]) -> (r: Number)
    requires
        obs.wf(),
        mark.fits(obs),
        0 < kernel@.len() <= 1001,
    ensures
        r == texture_around(obs, mark, kernel@),
{
    let (w, h): (usize, usize) = (obs.width as usize, obs.height as usize);
    let (px, py) = (mark.px, mark.py);
    let x0: usize = if px < 60 {
        0
    } else {
        px - 60
    };
    let y0: usize = if py < 40 {
        0
    } else {
        py - 40
    };
    let x1: usize = if w - (px + mark.tw) < 60 {
        w
    } else {
        px + mark.tw + 60
    };
    let y1: usize = if h - (py + mark.th) < 40 {
        h
    } else {
        py + mark.th + 40
    };
    let part = window(obs, (x0, y0, x1, y1));
    let seen = numbers_of(part.data.as_slice());
    roughness_of(seen.as_slice(), x1 - x0, y1 - y0, kernel)
}

/// What is left of the mark with each gain.
pub open spec fn ghosts_left(
    obs: &Picture,
    mark: &PlacedMark,
    steps: Seq<Number>,
    kernel: Seq<Number>,
) -> Seq<Option<Number>> {
    Seq::new(steps.len(), |k: int| ghost_left(obs, mark, steps[k], kernel))
}

/// The weights of the two blurs: that of the texture, and the wider one that a
/// mark is looked for against.
pub struct Kernels {
    pub texture: Vec<Number>,
    pub residue: Vec<Number>,
}

impl Kernels {
    pub open spec fn wf(&self) -> bool {
        0 < self.texture@.len() <= 1001 && 0 < self.residue@.len() <= 1001
    }
}

/// A picture with its mark undone, the gain, and what is left of the mark.
pub struct Undone {
    pub picture: Picture,
    pub gain: Number,
    pub left: Number,
}

/// The gain with which a placed mark is undone, if it is.
pub open spec fn undoing_gain(
    obs: &Picture,
    mat: &Picture,
    mark: &PlacedMark,
    params: &InverseParams,
    kernels: &Kernels,
) -> Option<int> {
    let ghosts = ghosts_left(obs, mark, gain_steps(), kernels.residue@);
    match best_gain(ghosts, ghosts.len() as int) {
        Some(k) => if !is_flat(
            texture_around(obs, mark, kernels.texture@),
            params.texture_min,
        ) && explains(obs, mat, mark) && !ghost_limit(params).spec_lt(ghosts[k].unwrap()) {
            Some(k)
        } else {
            None
        },
        None => None,
    }
}

/// What comes of undoing a profile's mark over a restored picture.
pub open spec fn is_inverse(
    obs: &Picture,
    mat: &Picture,
    profile: &Profile,
    px: int,
    py: int,
    scale: Number,
    params: &InverseParams,
    mask: Option<&Mask>,
    kernels: &Kernels,
    r: Result<Option<Undone>, String>,
) -> bool {
    let (w, h) = (obs.width as int, obs.height as int);
    if is_off_scale(w, h, profile.ref_short_side, params.scale_tol) {
        r matches Ok(None)
    } else if px + scaled_size(profile.aw as int, scale) > w || py + scaled_size(
        profile.ah as int,
        scale,
    ) > h {
        fails_with(r, outside_message())
    } else {
        exists|mark: PlacedMark|
            {
                &&& #[trigger] is_placed(mark, profile, px, py, scale)
                &&& match undoing_gain(obs, mat, &mark, params, kernels) {
                    None => r matches Ok(None),
                    Some(k) => r matches Ok(Some(u)) && {
                        &&& u.gain == gain_steps()[k]
                        &&& Some(u.left) == ghost_left(obs, &mark, u.gain, kernels.residue@)
                        &&& u.picture.wf()
                        &&& u.picture.width == obs.width
                        &&& u.picture.height == obs.height
                        &&& u.picture.data@ == undone_bytes(obs, mat, &mark, u.gain, mask)
                    },
                }
            }
    }
}

/// Undoes a profile's mark over a restored picture, where its size, its
/// surroundings and what would be left of it allow it.
pub fn inverse_image_gated(
    obs: &Picture,
    mat: &Picture,
    profile: &Profile,
    px: usize,
    py: usize,
    scale: Number,
    params: &InverseParams,
    mask: Option<&Mask>,
    kernels: &Kernels,
) -> (r: Result<Option<Undone>, String>)
    requires
        obs.wf(),
        mat.wf(),
        obs.width == mat.width,
        obs.height == mat.height,
        profile.wf(),
        kernels.wf(),
        mask matches Some(m) ==> m.wf() && m.width == obs.width && m.height == obs.height,
    ensures
        is_inverse(obs, mat, profile, px as int, py as int, scale, params, mask, kernels, r),
{
    let mark = match place_mark(obs, profile, px, py, scale, params) {
        Err(e) => {
            return Err(e);
        },
        Ok(None) => {
            return Ok(None);
        },
        Ok(Some(mark)) => mark,
    };
    proof {
        assert(is_placed(mark, profile, px as int, py as int, scale));
    }
    let texture = if params.texture_min.is_some() {
        texture_hf(obs, &mark, kernels.texture.as_slice())
    } else {
        Number::from_int(0)
    };
    if !may_undo(obs, mat, &mark, texture, params) {
        return Ok(None);
    }
    let steps = gains();
    let n: usize = steps.len();
    let ghost goal = ghosts_left(obs, &mark, steps@, kernels.residue@);
    let mut ghosts: Vec<Option<Number>> = Vec::new();
    let mut k: usize = 0;
    while k < n
        invariant
            obs.wf(),
            mark.fits(obs),
            kernels.wf(),
            n == steps@.len(),
            goal == ghosts_left(obs, &mark, steps@, kernels.residue@),
            k <= n,
            ghosts@ == goal.take(k as int),
        decreases n - k,
    {
        ghosts.push(ghost_for(obs, &mark, steps[k], kernels.residue.as_slice()));
        k = k + 1;
        proof {
            assert(ghosts@ =~= goal.take(k as int));
        }
    }
    proof {
        assert(ghosts@ =~= goal);
    }
    match choose_gain(ghosts.as_slice(), params) {
        None => Ok(None),
        Some(best) => {
            let gain = steps[best];
            match ghosts[best] {
                None => Ok(None),
                Some(left) => {
                    let picture = undo_mark(obs, mat, &mark, gain, mask);
                    Ok(Some(Undone { picture, gain, left }))
                },
            }
        },
    }
}

/// The message for a mark that is not undone.
pub open spec fn skipped_message() -> Seq<char> {
    "inverse skipped (gated)"@
}

/// Undoes a profile's mark under no limits but those that always apply.
pub fn inverse_image(
    obs: &Picture,
    mat: &Picture,
    profile: &Profile,
    px: usize,
    py: usize,
    scale: Number,
    kernels: &Kernels,
) -> (r: Result<Undone, String>)
    requires
        obs.wf(),
        mat.wf(),
        obs.width == mat.width,
        obs.height == mat.height,
        profile.wf(),
        kernels.wf(),
    ensures
        exists|out: Result<Option<Undone>, String>|
            {
                &&& #[trigger] is_inverse(
                    obs,
                    mat,
                    profile,
                    px as int,
                    py as int,
                    scale,
                    &(InverseParams { scale_tol: None, texture_min: None, ghost_max: None }),
                    None,
                    kernels,
                    out,
                )
                &&& match out {
                    Ok(Some(u)) => r == Ok::<Undone, String>(u),
                    Ok(None) => fails_with(r, skipped_message()),
                    Err(e) => fails_with(r, e@),
                }
            },
{
    let open = InverseParams { scale_tol: None, texture_min: None, ghost_max: None };
    let out = inverse_image_gated(obs, mat, profile, px, py, scale, &open, None, kernels);
    match out {
        Ok(Some(u)) => Ok(u),
        Ok(None) => Err(String::from_str("inverse skipped (gated)")),
        Err(e) => Err(e),
    }
}

/// Undoing a mark under a mask changes nothing that the mask does not mark.
pub proof fn lemma_unmarked_stays(
    obs: &Picture,
    mat: &Picture,
    mark: &PlacedMark,
    gain: Number,
    mask: &Mask,
    j: int,
)
    requires
        0 <= j < obs.data@.len(),
        mask.data@[j / 3] == 0,
    ensures
        undone_bytes(obs, mat, mark, gain, Some(mask))[j] == obs.data@[j],
{
}

/// Undoing a mark changes nothing outside its box.
pub proof fn lemma_outside_stays(
    obs: &Picture,
    mat: &Picture,
    mark: &PlacedMark,
    gain: Number,
    mask: Option<&Mask>,
    j: int,
)
    requires
        0 <= j < obs.data@.len(),
        ({
            let (x, y) = (j / 3 % obs.width as int, j / 3 / obs.width as int);
            x < mark.px || x >= mark.px + mark.tw || y < mark.py || y >= mark.py + mark.th
        }),
    ensures
        undone_bytes(obs, mat, mark, gain, mask)[j] == obs.data@[j],
{
}

/// The limits under which the known stamp is undone: a size within 3 percent of
/// the stamp's own, a texture of at least 9, and little left of it.
pub open spec fn is_for_stamp(p: InverseParams) -> bool {
    &&& p.scale_tol == Some(Number::spec_ratio(3, 100))
    &&& p.texture_min == Some(Number::spec_int(9))
    &&& p.ghost_max == Some(Number::spec_ratio(12, 100))
}

pub fn stamp_params() -> (r: InverseParams)
    ensures
        is_for_stamp(r),
{
    InverseParams {
        scale_tol: Some(Number::decimal(3, 100)),
        texture_min: Some(Number::from_int(9)),
        ghost_max: Some(Number::decimal(12, 100)),
    }
}

/// No gain that could be judged leaves less of the mark than the one that is
/// taken, if every measure is a number.
pub proof fn lemma_best_gain_least(ghosts: Seq<Option<Number>>, n: int, k: int)
    requires
        0 <= k < n <= ghosts.len(),
        ghosts[k] is Some,
        forall|i: int|
            0 <= i < n ==> (#[trigger] ghosts[i] matches Some(g) ==> g.kind() != Class::Nan),
    ensures
        best_gain(ghosts, n) matches Some(b) && 0 <= b < n && ghosts[b] is Some
            && !ghosts[k].unwrap().spec_lt(ghosts[b].unwrap()),
    decreases n,
{
    lemma_best_gain_place(ghosts, n);
    lemma_best_gain_place(ghosts, n - 1);
    let left = ghosts[k].unwrap();
    if k == n - 1 {
        lemma_number_strict(left, left);
    } else {
        lemma_best_gain_least(ghosts, n - 1, k);
        let before = best_gain(ghosts, n - 1).unwrap();
        let now = best_gain(ghosts, n).unwrap();
        if now != before {
            let (old_least, new_least) = (ghosts[before].unwrap(), ghosts[now].unwrap());
            lemma_number_strict(new_least, old_least);
            lemma_number_order(new_least, old_least, left);
        }
    }
}

proof fn lemma_best_gain_place(ghosts: Seq<Option<Number>>, n: int)
    requires
        n <= ghosts.len(),
    ensures
        best_gain(ghosts, n) matches Some(b) ==> 0 <= b < n && ghosts[b] is Some,
    decreases n,
{
    if n > 0 {
        lemma_best_gain_place(ghosts, n - 1);
    }
}

/// The coverage with a gain is near the product.
proof fn lemma_gained_close(a: Number, gain: Number)
    requires
        sound(a),
        sound(gain),
        (0 as real) <= amount(a) * amount(gain) <= (1 as real),
    ensures
        sound(gained(a, gain)),
        (0 as real) <= amount(gained(a, gain)) <= (2 as real),
        within(
            amount(gained(a, gain)),
            amount(a) * amount(gain),
            (1 as real) / (0x40_0000 as real),
        ),
{
    let (zero, one) = (Number::spec_int(0), Number::spec_int(1));
    lemma_int_amount(0);
    lemma_int_amount(1);
    lemma_product_close(a, gain);
    let p = a.spec_times(gain);
    lemma_clamp_by_amount(p, zero, one);
    let q = p.spec_clamp(zero, one);
    lemma_short_close(q);
    lemma_short_sign(q);
}

/// What a channel comes out as is near what the blend is solved to: what is
/// seen, less the mark's share, over what the mark leaves.
proof fn lemma_undone_close(seen: u8, alpha: Number, gain: Number, color: Number)
    requires
        sound(alpha),
        sound(gain),
        sound(color),
        (0 as real) <= amount(alpha) * amount(gain) <= (95 as real) / (100 as real),
        (0 as real) <= amount(color) <= (255 as real),
    ensures
        ({
            let cover = amount(alpha) * amount(gain);
            let ground = ((seen as real) - cover * amount(color)) / ((1 as real) - cover);
            let v = undone(seen, gained(alpha, gain), color);
            &&& sound(v)
            &&& modest(amount(v))
            &&& (-1 as real) <= ground <= (256 as real) ==> within(
                amount(v),
                ground,
                (1 as real) / (50 as real),
            )
            &&& ground < ((0 as real) - (52 as real) / (100 as real)) ==> amount(v) < ((0 as real)
                - (501 as real) / (1000 as real))
            &&& ground > (25552 as real) / (100 as real) ==> amount(v) > (255501 as real) / (1000
                as real)
        }),
{
    let a = gained(alpha, gain);
    let (big, c, s) = (amount(alpha) * amount(gain), amount(color), seen as real);
    lemma_gained_close(alpha, gain);
    let x = amount(a);
    let (n1, ns) = (Number::spec_int(1), Number::spec_int(seen as int));
    lemma_int_amount(1);
    lemma_int_amount(seen as int);
    let xc = x * c;
    assert((0 as real) <= xc && xc <= (510 as real) && within(
        xc,
        big * c,
        (1 as real) / (0x4000 as real),
    )) by {
        assert((0 as real) <= x * c && x * c <= (510 as real) && x * c - big * c <= (1 as real) / (
        0x4000 as real) && big * c - x * c <= (1 as real) / (0x4000 as real)) by (nonlinear_arith)
            requires
                (0 as real) <= x,
                x <= (2 as real),
                (0 as real) <= c,
                c <= (255 as real),
                big - (1 as real) / (0x40_0000 as real) <= x,
                x <= big + (1 as real) / (0x40_0000 as real),
        ;
    }
    lemma_product_close(a, color);
    let t = a.spec_times(color).spec_short();
    let tr = amount(t);
    lemma_difference_close(ns, t);
    let n = ns.spec_minus(t).spec_short();
    let nr = amount(n);
    let top = s - big * c;
    assert(within(nr, top, (1 as real) / (0x1000 as real)));
    assert((0 as real) - (256 as real) <= top && top <= (255 as real)) by (nonlinear_arith)
        requires
            top == s - big * c,
            (0 as real) <= s,
            s <= (255 as real),
            (0 as real) <= big,
            big <= (1 as real),
            (0 as real) <= c,
            c <= (255 as real),
    ;
    lemma_difference_close(n1, a);
    let d = n1.spec_minus(a).spec_short();
    let (dr, den) = (amount(d), (1 as real) - big);
    assert(within(dr, den, (1 as real) / (0x20_0000 as real)));
    lemma_ratio_close(1, 1000);
    let floor = level(1, 1000);
    lemma_max_by_amount(d, floor);
    assert(d.spec_max(floor) == d) by {
        crate::number::lemma_operations(d, floor);
        lemma_order_by_amount(d, floor);
    }
    let q = nr / dr;
    assert(nr == q * dr) by (nonlinear_arith)
        requires
            q == nr / dr,
            dr > (0 as real),
    ;
    assert((0 as real) - (10000 as real) <= q && q <= (10000 as real)) by (nonlinear_arith)
        requires
            nr == q * dr,
            dr >= (4 as real) / (100 as real),
            (0 as real) - (257 as real) <= nr,
            nr <= (257 as real),
    ;
    lemma_quotient_close(n, d);
    let v = undone(seen, a, color);
    assert(close(amount(v), q));
    let g = top / den;
    assert(top == g * den) by (nonlinear_arith)
        requires
            g == top / den,
            den > (0 as real),
    ;
    if (-1 as real) <= g <= (256 as real) {
        assert(q - g <= (1 as real) / (100 as real) && g - q <= (1 as real) / (100 as real)) by (
        nonlinear_arith)
            requires
                top == g * den,
                nr == q * dr,
                dr >= (4 as real) / (100 as real),
                nr - top <= (1 as real) / (0x1000 as real),
                top - nr <= (1 as real) / (0x1000 as real),
                dr - den <= (1 as real) / (0x20_0000 as real),
                den - dr <= (1 as real) / (0x20_0000 as real),
                (0 as real) - (256 as real) <= g,
                g <= (256 as real),
        ;
    }
    if g < (0 as real) - (52 as real) / (100 as real) {
        assert(q <= (0 as real) - (505 as real) / (1000 as real)) by (nonlinear_arith)
            requires
                top == g * den,
                nr == q * dr,
                den >= (5 as real) / (100 as real),
                dr >= (4 as real) / (100 as real),
                nr - top <= (1 as real) / (0x1000 as real),
                dr - den <= (1 as real) / (0x20_0000 as real),
                g < (0 as real) - (52 as real) / (100 as real),
        ;
    }
    if g > (25552 as real) / (100 as real) {
        assert(q >= (255505 as real) / (1000 as real)) by (nonlinear_arith)
            requires
                top == g * den,
                nr == q * dr,
                den >= (5 as real) / (100 as real),
                dr >= (4 as real) / (100 as real),
                top - nr <= (1 as real) / (0x1000 as real),
                dr - den <= (1 as real) / (0x20_0000 as real),
                g > (25552 as real) / (100 as real),
        ;
    }
}

/// The ground that channel `c` of a blended pixel is solved to.
pub open spec fn ground(obs: &Picture, mark: &PlacedMark, gain: Number, i: int, cell: int, c: int) -> real {
    let cover = amount(mark.alpha@[cell]) * amount(gain);
    ((obs.data@[3 * i + c] as real) - cover * amount(mark.color@[3 * cell + c])) / ((1 as real)
        - cover)
}

/// The parts of a mark's cell are finite numbers, a coverage with the gain of at
/// most 0.95, and colours of bytes.
pub open spec fn is_solvable(mark: &PlacedMark, gain: Number, cell: int) -> bool {
    &&& sound(gain)
    &&& sound(mark.alpha@[cell])
    &&& (0 as real) <= amount(mark.alpha@[cell]) * amount(gain) <= (95 as real) / (100 as real)
    &&& forall|k: int|
        3 * cell <= k < 3 * cell + 3 ==> sound(#[trigger] mark.color@[k]) && (0 as real) <= amount(
            mark.color@[k],
        ) <= (255 as real)
}

proof fn lemma_nearest_byte_close(v: Number)
    requires
        sound(v),
        modest(amount(v)),
    ensures
        within(
            nearest_byte(v) as real,
            if amount(v) < (0 as real) {
                0 as real
            } else if amount(v) > (255 as real) {
                255 as real
            } else {
                amount(v)
            },
            (1 as real) / (2 as real),
        ),
{
    lemma_int_amount(0);
    lemma_int_amount(255);
    let q = v.spec_clamp(Number::spec_int(0), Number::spec_int(255));
    lemma_clamp_by_amount(v, Number::spec_int(0), Number::spec_int(255));
    lemma_round_by_amount(q);
    let n = q.spec_round();
    assert(0 <= n <= 255);
}

proof fn lemma_wild_by_amount(v: Number)
    requires
        sound(v),
    ensures
        amount(v) < ((0 as real) - (501 as real) / (1000 as real)) ==> is_wild(v),
        amount(v) > (255501 as real) / (1000 as real) ==> is_wild(v),
        ((0 as real) - (499 as real) / (1000 as real)) <= amount(v) <= (255499 as real) / (1000
            as real) ==> !is_wild(v),
{
    let (zero, half) = (Number::spec_int(0), Number::spec_ratio(1, 2));
    lemma_int_amount(0);
    lemma_ratio_close(1, 2);
    lemma_difference_close(zero, half);
    lemma_order_by_amount(v, zero.spec_minus(half));
    lemma_ratio_close(2555, 10);
    lemma_order_by_amount(Number::spec_ratio(2555, 10), v);
}

/// Undoing a mark solves the blend, each channel by itself. In a cell of the mark
/// that the mask leaves open and that is covered by more than three hundredths, a
/// pixel that is not near white and whose three grounds are colours comes back as
/// these grounds, each from its own channel; a pixel near white, or one with a
/// ground that is no colour, takes the restored picture's pixel. A cell that is
/// covered by less stays.
pub proof fn lemma_undoing_solves_the_blend(
    obs: &Picture,
    mat: &Picture,
    mark: &PlacedMark,
    gain: Number,
    mask: Option<&Mask>,
    r: &Picture,
    x: int,
    y: int,
    c: int,
)
    requires
        obs.wf(),
        mark.fits(obs),
        r.data@ == undone_bytes(obs, mat, mark, gain, mask),
        0 <= x < mark.tw,
        0 <= y < mark.th,
        0 <= c < 3,
        is_solvable(mark, gain, y * mark.tw + x),
        mask matches Some(m) ==> m.data@[(mark.py + y) * obs.width + (mark.px + x)] != 0,
    ensures
        ({
            let i = (mark.py + y) * obs.width + (mark.px + x);
            let cell = y * mark.tw + x;
            let cover = amount(mark.alpha@[cell]) * amount(gain);
            let white = obs.data@[3 * i] >= 252 && obs.data@[3 * i + 1] >= 252 && obs.data@[3 * i
                + 2] >= 252;
            let least = (0 as real) - (47 as real) / (100 as real);
            let most = (25547 as real) / (100 as real);
            let below = (0 as real) - (52 as real) / (100 as real);
            let beyond = (25552 as real) / (100 as real);
            let own = ground(obs, mark, gain, i, cell, c);
            &&& 0 <= 3 * i + c < r.data@.len()
            &&& cover >= (301 as real) / (10000 as real) && !white && (forall|k: int|
                0 <= k < 3 ==> least <= #[trigger] ground(obs, mark, gain, i, cell, k) <= most)
                ==> within(
                r.data@[3 * i + c] as real,
                own,
                (1 as real) / (2 as real) + (1 as real) / (2 as real),
            ) && ((0 as real) <= own <= (255 as real) ==> within(
                r.data@[3 * i + c] as real,
                own,
                (1 as real) / (2 as real) + (1 as real) / (50 as real),
            ))
            &&& cover >= (301 as real) / (10000 as real) && (white || (exists|k: int|
                0 <= k < 3 && (#[trigger] ground(obs, mark, gain, i, cell, k) < below || ground(
                    obs,
                    mark,
                    gain,
                    i,
                    cell,
                    k,
                ) > beyond))) ==> r.data@[3 * i + c] == mat.data@[3 * i + c]
            &&& cover <= (299 as real) / (10000 as real) ==> r.data@[3 * i + c] == obs.data@[3 * i
                + c]
        }),
{
    let (w, h) = (obs.width as int, obs.height as int);
    let i = (mark.py + y) * obs.width + (mark.px + x);
    let cell = y * mark.tw + x;
    lemma_cell(w, h, mark.px + x, mark.py + y);
    assert((3 * i + c) / 3 == i && (3 * i + c) % 3 == c);
    assert(r.data@[3 * i + c] == undone_byte(obs, mat, mark, gain, mask, 3 * i + c));
    let a = gained(mark.alpha@[cell], gain);
    lemma_gained_close(mark.alpha@[cell], gain);
    lemma_ratio_close(3, 100);
    lemma_order_by_amount(a, Number::spec_ratio(3, 100));
    assert(mark.color@[3 * cell] == mark.color@[3 * cell + 0]);
    let v0 = undone(obs.data@[3 * i], a, mark.color@[3 * cell]);
    let v1 = undone(obs.data@[3 * i + 1], a, mark.color@[3 * cell + 1]);
    let v2 = undone(obs.data@[3 * i + 2], a, mark.color@[3 * cell + 2]);
    lemma_undone_close(obs.data@[3 * i], mark.alpha@[cell], gain, mark.color@[3 * cell]);
    lemma_undone_close(obs.data@[3 * i + 1], mark.alpha@[cell], gain, mark.color@[3 * cell + 1]);
    lemma_undone_close(obs.data@[3 * i + 2], mark.alpha@[cell], gain, mark.color@[3 * cell + 2]);
    lemma_wild_by_amount(v0);
    lemma_wild_by_amount(v1);
    lemma_wild_by_amount(v2);
    lemma_nearest_byte_close(v0);
    lemma_nearest_byte_close(v1);
    lemma_nearest_byte_close(v2);
    let (g0, g1, g2) = (
        ground(obs, mark, gain, i, cell, 0),
        ground(obs, mark, gain, i, cell, 1),
        ground(obs, mark, gain, i, cell, 2),
    );
    assert(obs.channel(i, 0) == obs.data@[3 * i] && obs.channel(i, 1) == obs.data@[3 * i + 1]
        && obs.channel(i, 2) == obs.data@[3 * i + 2]);
}

/// Undoing a mark is the inverse of blending it in, channel by channel. If what
/// is seen of each channel of a covered pixel is the blend of the mark's colour
/// over a ground, rounded, and the pixel is not near white, then each channel of
/// the result is that channel's ground, up to what the roundings make of it: a
/// half over what the mark leaves of the ground, and a half and a fiftieth.
pub proof fn lemma_undoing_inverts_blending(
    obs: &Picture,
    mat: &Picture,
    mark: &PlacedMark,
    gain: Number,
    mask: Option<&Mask>,
    r: &Picture,
    x: int,
    y: int,
    grounds: (real, real, real),
)
    requires
        obs.wf(),
        mark.fits(obs),
        r.data@ == undone_bytes(obs, mat, mark, gain, mask),
        0 <= x < mark.tw,
        0 <= y < mark.th,
        is_solvable(mark, gain, y * mark.tw + x),
        mask matches Some(m) ==> m.data@[(mark.py + y) * obs.width + (mark.px + x)] != 0,
        ({
            let i = (mark.py + y) * obs.width + (mark.px + x);
            let cell = y * mark.tw + x;
            let a = amount(mark.alpha@[cell]) * amount(gain);
            let half = (1 as real) / (2 as real);
            let slack = half / ((1 as real) - a);
            &&& a >= (301 as real) / (10000 as real)
            &&& obs.data@[3 * i] < 252 || obs.data@[3 * i + 1] < 252 || obs.data@[3 * i + 2] < 252
            &&& slack <= grounds.0 <= (255 as real) - slack
            &&& slack <= grounds.1 <= (255 as real) - slack
            &&& slack <= grounds.2 <= (255 as real) - slack
            &&& within(
                obs.data@[3 * i] as real,
                a * amount(mark.color@[3 * cell]) + ((1 as real) - a) * grounds.0,
                half,
            )
            &&& within(
                obs.data@[3 * i + 1] as real,
                a * amount(mark.color@[3 * cell + 1]) + ((1 as real) - a) * grounds.1,
                half,
            )
            &&& within(
                obs.data@[3 * i + 2] as real,
                a * amount(mark.color@[3 * cell + 2]) + ((1 as real) - a) * grounds.2,
                half,
            )
        }),
    ensures
        ({
            let i = (mark.py + y) * obs.width + (mark.px + x);
            let a = amount(mark.alpha@[y * mark.tw + x]) * amount(gain);
            let half = (1 as real) / (2 as real);
            let far = half / ((1 as real) - a) + half + (1 as real) / (50 as real);
            &&& within(r.data@[3 * i] as real, grounds.0, far)
            &&& within(r.data@[3 * i + 1] as real, grounds.1, far)
            &&& within(r.data@[3 * i + 2] as real, grounds.2, far)
        }),
{
    let i = (mark.py + y) * obs.width + (mark.px + x);
    let cell = y * mark.tw + x;
    let a = amount(mark.alpha@[cell]) * amount(gain);
    let slack = ((1 as real) / (2 as real)) / ((1 as real) - a);
    assert(mark.color@[3 * cell] == mark.color@[3 * cell + 0]);
    assert(obs.data@[3 * i] == obs.data@[3 * i + 0]);
    lemma_solved_near(obs.data@[3 * i] as real, a, amount(mark.color@[3 * cell]), grounds.0);
    lemma_solved_near(
        obs.data@[3 * i + 1] as real,
        a,
        amount(mark.color@[3 * cell + 1]),
        grounds.1,
    );
    lemma_solved_near(
        obs.data@[3 * i + 2] as real,
        a,
        amount(mark.color@[3 * cell + 2]),
        grounds.2,
    );
    assert(within(ground(obs, mark, gain, i, cell, 0), grounds.0, slack));
    assert(within(ground(obs, mark, gain, i, cell, 1), grounds.1, slack));
    assert(within(ground(obs, mark, gain, i, cell, 2), grounds.2, slack));
    lemma_undoing_solves_the_blend(obs, mat, mark, gain, mask, r, x, y, 0);
    lemma_undoing_solves_the_blend(obs, mat, mark, gain, mask, r, x, y, 1);
    lemma_undoing_solves_the_blend(obs, mat, mark, gain, mask, r, x, y, 2);
}

/// A blend that is off by a half is solved to a ground that is off by a half
/// over what the mark leaves of it.
proof fn lemma_solved_near(seen: real, a: real, color: real, b: real)
    requires
        (0 as real) <= a <= (95 as real) / (100 as real),
        within(seen, a * color + ((1 as real) - a) * b, (1 as real) / (2 as real)),
    ensures
        within(
            (seen - a * color) / ((1 as real) - a),
            b,
            ((1 as real) / (2 as real)) / ((1 as real) - a),
        ),
{
    let (t, d) = (seen - a * color, (1 as real) - a);
    let (g, f) = (t / d, ((1 as real) / (2 as real)) / d);
    assert(t == g * d && f * d == (1 as real) / (2 as real)) by (nonlinear_arith)
        requires
            g == t / d,
            f == ((1 as real) / (2 as real)) / d,
            d > (0 as real),
    ;
    assert(g - b <= f && b - g <= f) by (nonlinear_arith)
        requires
            t == g * d,
            f * d == (1 as real) / (2 as real),
            t - d * b <= (1 as real) / (2 as real),
            d * b - t <= (1 as real) / (2 as real),
            d > (0 as real),
    ;
}

/// What is held against the blur to tell what is left of a mark solves the blend
/// too, each channel by itself: where the ground is a colour, it is that ground.
pub proof fn lemma_baring_solves_the_blend(
    obs: &Picture,
    mark: &PlacedMark,
    gain: Number,
    x: int,
    y: int,
    c: int,
)
    requires
        obs.wf(),
        mark.fits(obs),
        0 <= x < mark.tw,
        0 <= y < mark.th,
        0 <= c < 3,
        is_solvable(mark, gain, y * mark.tw + x),
    ensures
        ({
            let i = (mark.py + y) * obs.width + (mark.px + x);
            let cell = y * mark.tw + x;
            let own = ground(obs, mark, gain, i, cell, c);
            &&& 0 <= 3 * cell + c < bared_plane(obs, mark, gain).len()
            &&& (0 as real) <= own <= (255 as real) ==> within(
                amount(bared_plane(obs, mark, gain)[3 * cell + c]),
                own,
                (1 as real) / (50 as real),
            )
        }),
{
    let i = (mark.py + y) * obs.width + (mark.px + x);
    let cell = y * mark.tw + x;
    lemma_cell(mark.tw as int, mark.th as int, x, y);
    let j = 3 * cell + c;
    assert(j / 3 == cell && j % 3 == c);
    let (alpha, color) = (mark.alpha@[cell], mark.color@[j]);
    let (zero, one, top) = (Number::spec_int(0), Number::spec_int(1), Number::spec_int(255));
    lemma_int_amount(0);
    lemma_int_amount(1);
    lemma_int_amount(255);
    let seen = obs.data@[3 * i + c];
    let ns = Number::spec_int(seen as int);
    lemma_int_amount(seen as int);
    let (big, k, s) = (amount(alpha) * amount(gain), amount(color), seen as real);
    lemma_product_close(alpha, gain);
    lemma_clamp_by_amount(alpha.spec_times(gain), zero, one);
    let a = gained_fully(mark, gain, cell);
    let u = amount(a);
    let tiny = (1 as real) / (0x40_0000 as real);
    assert(within(u, big, tiny) && (0 as real) <= u <= (1 as real));
    let uk = u * k;
    assert((0 as real) <= uk && uk <= (510 as real) && uk - big * k <= (1 as real) / (0x4000
        as real) && big * k - uk <= (1 as real) / (0x4000 as real)) by (nonlinear_arith)
        requires
            uk == u * k,
            (0 as real) <= u,
            u <= (2 as real),
            (0 as real) <= k,
            k <= (255 as real),
            big - (1 as real) / (0x40_0000 as real) <= u,
            u <= big + (1 as real) / (0x40_0000 as real),
    ;
    lemma_product_close(a, color);
    let t = a.spec_times(color);
    lemma_difference_close(ns, t);
    let n = ns.spec_minus(t);
    let (nr, over) = (amount(n), s - big * k);
    assert(within(nr, over, (1 as real) / (0x1000 as real)));
    lemma_difference_close(one, a);
    let d = one.spec_minus(a);
    let (dr, den) = (amount(d), (1 as real) - big);
    assert(within(dr, den, (1 as real) / (0x20_0000 as real)));
    lemma_ratio_close(1, 1000);
    let floor = Number::spec_ratio(1, 1000);
    lemma_max_by_amount(d, floor);
    assert(d.spec_max(floor) == d) by {
        crate::number::lemma_operations(d, floor);
        lemma_order_by_amount(d, floor);
    }
    let g = over / den;
    assert(over == g * den) by (nonlinear_arith)
        requires
            g == over / den,
            den > (0 as real),
    ;
    assert(g == ground(obs, mark, gain, i, cell, c));
    if (0 as real) <= g <= (255 as real) {
        let q = nr / dr;
        assert(nr == q * dr) by (nonlinear_arith)
            requires
                q == nr / dr,
                dr > (0 as real),
        ;
        assert(q - g <= (1 as real) / (100 as real) && g - q <= (1 as real) / (100 as real)) by (
        nonlinear_arith)
            requires
                over == g * den,
                nr == q * dr,
                dr >= (4 as real) / (100 as real),
                nr - over <= (1 as real) / (0x1000 as real),
                over - nr <= (1 as real) / (0x1000 as real),
                dr - den <= (1 as real) / (0x20_0000 as real),
                den - dr <= (1 as real) / (0x20_0000 as real),
                (0 as real) - (256 as real) <= g,
                g <= (256 as real),
        ;
        lemma_quotient_close(n, d);
        lemma_clamp_by_amount(n.spec_over(d), zero, top);
        lemma_short_close(n.spec_over(d).spec_clamp(zero, top));
    }
}

} // verus!
