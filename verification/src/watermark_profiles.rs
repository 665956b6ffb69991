//! Profiles of watermarks: a coverage and a colour for each pixel of a mark,
//! where the mark sits, and how profiles are named, listed and stored.

use crate::accuracy::{
    amount, lemma_clamp_by_amount, lemma_int_amount, lemma_product_close, lemma_quotient_close,
    lemma_trunc_by_amount, modest, sound, within,
};
use crate::boxes::{default_frame, larger, lemma_scaled_least, scaled_length, smaller};
use crate::codec::{
    decoded_rgb, encoded_gray, encoded_rgb, gray_fault, gray_size, lemma_gray_reads_back,
    open_mask, open_picture, reads_as_gray, reads_as_rgb, reads_gray, save_mask, save_result,
    too_large, Plain,
};
use crate::double::{
    lemma_below_is_not_above, lemma_over_itself, lemma_trunc_at_least, lemma_whole_form,
    lemma_whole_times_one, lemma_whole_trunc, whole, Double,
};
use crate::names::Format;
use crate::number::Number;
use crate::raster::{measurable, Mask, Picture};
use crate::text::{
    all_ascii, ascii_lower, chars_of, fails_with, lemma_trimmed_within, lowercase,
    same, text_of, texts, to_lowercase, trim, trimmed,
};
use vstd::prelude::*;

verus! {

/// Left, top, right and bottom inside a picture.
pub type Corners = (usize, usize, usize, usize);

/// Corners as integers.
pub type Edges = (int, int, int, int);

pub open spec fn edges(c: Corners) -> Edges {
    (c.0 as int, c.1 as int, c.2 as int, c.3 as int)
}

/// `a - b`, not below zero.
pub open spec fn lowered(a: int, b: int) -> int {
    larger(a - b, 0)
}

/// The corner in which a mark is expected when nothing else is known.
pub open spec fn corner_edges(width: int, height: int) -> Edges {
    (
        lowered(width, scaled_length(width, height, 330, 220)),
        lowered(height, scaled_length(width, height, 118, 78)),
        width,
        height,
    )
}

/// The bottom right corner, sized after the picture.
pub fn guess_corner_box(width: usize, height: usize) -> (r: Corners)
    ensures
        edges(r) == corner_edges(width as int, height as int),
        r.0 <= r.2,
        r.1 <= r.3,
{
    let across = Double::from_count(width).over(Double::from_int(2848));
    let down = Double::from_count(height).over(Double::from_int(1600));
    let scale = across.min(down);
    let bw: i64 = Double::from_int(330).times(scale).max(Double::from_int(220)).trunc();
    let bh: i64 = Double::from_int(118).times(scale).max(Double::from_int(78)).trunc();
    let x1: usize = if (width as u64) < bw as u64 {
        0
    } else {
        width - bw as usize
    };
    let y1: usize = if (height as u64) < bh as u64 {
        0
    } else {
        height - bh as usize
    };
    (x1, y1, width, height)
}

/// The corner for a mark and the one for the watermark have the same top left
/// pixel, but for the two sizes at which the watermark's place is known
/// otherwise. It is at least 220 by 78 pixels large, as far as the picture goes.
pub proof fn lemma_corners_agree(width: int, height: int)
    requires
        0 <= width,
        0 <= height,
        !(width == 2278 && height == 1280),
        !(width == 2048 && height == 2048),
    ensures
        ({
            let g = corner_edges(width, height);
            &&& g.2 == width
            &&& g.3 == height
            &&& width - g.0 >= smaller(width, 220)
            &&& height - g.1 >= smaller(height, 78)
            &&& default_frame(width, height) == (g.0, g.1, width - 8, height - 8)
        }),
{
    lemma_scaled_least(width, height, 330, 220);
    lemma_scaled_least(width, height, 118, 78);
    if width == 2848 && height == 1600 {
        lemma_native_length(330, 220);
        lemma_native_length(118, 78);
    }
}

/// At 2848 x 1600 lengths keep their size.
proof fn lemma_native_length(base: int, least: int)
    requires
        0 < least < base < 1000,
    ensures
        scaled_length(2848, 1600, base, least) == base,
{
    reveal(Double::spec_max);
    reveal(Double::spec_min);
    lemma_whole_form(2848);
    lemma_whole_form(1600);
    lemma_over_itself(whole(2848));
    lemma_over_itself(whole(1600));
    lemma_whole_times_one(base);
    lemma_whole_trunc(base);
    lemma_whole_trunc(least);
    if whole(base).spec_lt(whole(least)) {
        lemma_below_is_not_above(whole(base), whole(least));
        lemma_trunc_at_least(whole(least), base);
    }
}

/// An edge as it is meant: a negative one counts from the far side, and none
/// leaves the picture.
pub open spec fn meant_edge(v: int, size: int) -> int {
    larger(
        smaller(
            if v < 0 {
                size + v
            } else {
                v
            },
            size,
        ),
        0,
    )
}

/// A box as it is meant: edges in order, inside the picture; without one, the
/// corner.
pub open spec fn meant_edges(given: Option<(i64, i64, i64, i64)>, width: int, height: int) -> Edges {
    match given {
        None => corner_edges(width, height),
        Some(b) => {
            let (x1, y1) = (meant_edge(b.0 as int, width), meant_edge(b.1 as int, height));
            let (x2, y2) = (meant_edge(b.2 as int, width), meant_edge(b.3 as int, height));
            (smaller(x1, x2), smaller(y1, y2), larger(x1, x2), larger(y1, y2))
        },
    }
}

fn edge(v: i64, size: usize) -> (r: usize)
    requires
        size <= 0x7fff_ffff_ffff_ffff,
    ensures
        r == meant_edge(v as int, size as int),
        r <= size,
{
    let n: i64 = size as i64;
    let at: i64 = if v < 0 {
        n + v
    } else {
        v
    };
    if at < 0 {
        0
    } else if at > n {
        size
    } else {
        at as usize
    }
}

/// The box that is meant by what was given.
pub fn resolve_box(
    given: Option<(i64, i64, i64, i64)>,
    width: usize,
    height: usize,
) -> (r: Corners)
    requires
        width <= 0x7fff_ffff_ffff_ffff,
        height <= 0x7fff_ffff_ffff_ffff,
    ensures
        edges(r) == meant_edges(given, width as int, height as int),
        r.0 <= r.2 <= width,
        r.1 <= r.3 <= height,
{
    match given {
        None => guess_corner_box(width, height),
        Some(b) => {
            let x1: usize = edge(b.0, width);
            let y1: usize = edge(b.1, height);
            let x2: usize = edge(b.2, width);
            let y2: usize = edge(b.3, height);
            let (l, r) = if x1 < x2 {
                (x1, x2)
            } else {
                (x2, x1)
            };
            let (t, b) = if y1 < y2 {
                (y1, y2)
            } else {
                (y2, y1)
            };
            (l, t, r, b)
        },
    }
}

/// Letters and numbers beyond ASCII, as `char::is_alphanumeric` tells them.
pub uninterp spec fn unicode_alphanumeric(c: char) -> bool;

/// An English letter or a digit.
pub open spec fn ascii_alphanumeric(c: char) -> bool {
    48 <= c as u32 <= 57 || 65 <= c as u32 <= 90 || 97 <= c as u32 <= 122
}

/// A letter or a number.
pub open spec fn alphanumeric(c: char) -> bool {
    if (c as u32) < 128 {
        ascii_alphanumeric(c)
    } else {
        unicode_alphanumeric(c)
    }
}

/// `char::is_alphanumeric`: whether a character is a letter or a number, a
/// function of the character alone; in ASCII the English letters and the digits.
#[verifier::external_body]
fn is_alphanumeric(c: char) -> (r: bool)
    ensures
        r == (if (c as u32) < 128 {
            ascii_alphanumeric(c)
        } else {
            unicode_alphanumeric(c)
        }),
{
    c.is_alphanumeric()
}

/// What stands for a character in an identifier: nothing, itself or a hyphen.
pub open spec fn slug_part(c: char) -> Seq<char> {
    if alphanumeric(c) || c == '-' || c == '_' {
        seq![c]
    } else if c == ' ' || c == '\t' {
        seq!['-']
    } else {
        seq![]
    }
}

/// What stands for the first `n` characters.
pub open spec fn slug_parts(s: Seq<char>, n: int) -> Seq<char>
    decreases n,
{
    if n <= 0 {
        seq![]
    } else {
        slug_parts(s, n - 1) + slug_part(s[n - 1])
    }
}

/// A text without the hyphens at its start.
pub open spec fn bare_left(s: Seq<char>) -> Seq<char>
    decreases s.len(),
{
    if s.len() > 0 && s[0] == '-' {
        bare_left(s.skip(1))
    } else {
        s
    }
}

/// A text without the hyphens at its end.
pub open spec fn bare_right(s: Seq<char>) -> Seq<char>
    decreases s.len(),
{
    if s.len() > 0 && s.last() == '-' {
        bare_right(s.drop_last())
    } else {
        s
    }
}

/// The identifier for a lower-case label.
pub open spec fn slug_from(lower: Seq<char>) -> Seq<char> {
    let bare = bare_right(bare_left(slug_parts(lower, lower.len() as int)));
    if bare.len() == 0 {
        "profile"@
    } else {
        bare
    }
}

/// The identifier for a label.
pub open spec fn slug_text(label: Seq<char>) -> Seq<char> {
    slug_from(lowercase(trimmed(label)))
}

fn bare(s: &[char]) -> (r: Vec<char>)
    ensures
        r@ == bare_right(bare_left(s@)),
{
    let n: usize = s.len();
    let mut from: usize = 0;
    proof {
        assert(s@.skip(0) =~= s@);
    }
    while from < n && s[from] == '-'
        invariant
            n == s@.len(),
            from <= n,
            bare_left(s@) == bare_left(s@.skip(from as int)),
        decreases n - from,
    {
        proof {
            assert(s@.skip(from as int).skip(1) =~= s@.skip(from + 1));
        }
        from = from + 1;
    }
    let ghost left = s@.skip(from as int);
    let mut to: usize = n;
    proof {
        assert(s@.subrange(from as int, n as int) =~= left);
    }
    while to > from && s[to - 1] == '-'
        invariant
            n == s@.len(),
            from <= to <= n,
            bare_right(left) == bare_right(s@.subrange(from as int, to as int)),
        decreases to - from,
    {
        proof {
            assert(s@.subrange(from as int, to as int).drop_last() =~= s@.subrange(
                from as int,
                to - 1,
            ));
        }
        to = to - 1;
    }
    crate::text::slice_of(s, from, to)
}

/// The identifier for a label that is in lower case already.
pub fn slug_of_lower(lower: &str) -> (r: String)
    ensures
        r@ == slug_from(lower@),
{
    let chars = chars_of(lower);
    let n: usize = chars.len();
    let mut kept: Vec<char> = Vec::new();
    let mut i: usize = 0;
    while i < n
        invariant
            n == chars@.len(),
            i <= n,
            kept@ == slug_parts(chars@, i as int),
        decreases n - i,
    {
        let c: char = chars[i];
        let ghost before = kept@;
        if is_alphanumeric(c) || c == '-' || c == '_' {
            kept.push(c);
            proof {
                assert(kept@ =~= before + seq![c]);
            }
        } else if c == ' ' || c == '\t' {
            kept.push('-');
            proof {
                assert(kept@ =~= before + seq!['-']);
            }
        } else {
            proof {
                assert(kept@ =~= before + seq![]);
            }
        }
        i = i + 1;
    }
    let core = bare(kept.as_slice());
    if core.len() == 0 {
        String::from_str("profile")
    } else {
        text_of(core.as_slice())
    }
}

/// The identifier for a label: its letters, numbers, hyphens and underscores in
/// lower case, hyphens for blanks, and no hyphen at either end.
pub fn slug(label: &str) -> (r: String)
    ensures
        r@ == slug_text(label@),
{
    let chars = chars_of(label);
    let core = text_of(trim(chars.as_slice()).as_slice());
    let lower = to_lowercase(core.as_str());
    slug_of_lower(lower.as_str())
}

/// An identifier is not empty and has no hyphen at either end.
pub proof fn lemma_slug_shape(label: Seq<char>)
    ensures
        slug_text(label).len() > 0,
        slug_text(label)[0] != '-',
        slug_text(label).last() != '-',
{
    reveal_strlit("profile");
    let parts = slug_parts(lowercase(trimmed(label)), lowercase(trimmed(label)).len() as int);
    lemma_bare_left(parts);
    lemma_bare_right(bare_left(parts));
}

/// A small English letter, a digit, a hyphen or an underscore.
pub open spec fn is_slug_char(c: char) -> bool {
    97 <= c as u32 <= 122 || 48 <= c as u32 <= 57 || c == '-' || c == '_'
}

/// Every character can stand in an identifier.
pub open spec fn is_slug(s: Seq<char>) -> bool {
    forall|i: int| 0 <= i < s.len() ==> is_slug_char(#[trigger] s[i])
}

/// The identifier for an ASCII label holds only small letters, digits, hyphens
/// and underscores, and stands for itself. It is "profile" where the label has
/// no letter, no digit and no underscore.
pub proof fn lemma_slug_ascii(label: Seq<char>)
    requires
        all_ascii(label),
    ensures
        is_slug(slug_text(label)),
        slug_text(slug_text(label)) == slug_text(label),
        (forall|i: int|
            0 <= i < label.len() ==> !ascii_alphanumeric(#[trigger] label[i]) && label[i] != '_')
            ==> slug_text(label) == "profile"@,
{
    let core = trimmed(label);
    lemma_trimmed_within(label);
    let lower = lowercase(core);
    assert(all_ascii(core)) by {
        assert forall|i: int| 0 <= i < core.len() implies (#[trigger] core[i] as u32) < 128 by {
            assert(label.contains(core[i]));
        }
    }
    let parts = slug_parts(lower, lower.len() as int);
    lemma_parts_are_slug(core, core.len() as int);
    lemma_bare_left_within(parts);
    lemma_bare_right_within(bare_left(parts));
    let bare = bare_right(bare_left(parts));
    assert(is_slug(bare)) by {
        assert forall|i: int| 0 <= i < bare.len() implies is_slug_char(#[trigger] bare[i]) by {
            assert(bare_left(parts).contains(bare[i]));
            let j = choose|j: int| 0 <= j < bare_left(parts).len() && bare_left(parts)[j] == bare[i];
            assert(parts.contains(bare_left(parts)[j]));
        }
    }
    reveal_strlit("profile");
    let slug = slug_text(label);
    assert(is_slug(slug));
    lemma_slug_shape(label);
    lemma_slug_stays(slug);
    if forall|i: int|
        0 <= i < label.len() ==> !ascii_alphanumeric(#[trigger] label[i]) && label[i] != '_' {
        assert forall|i: int| 0 <= i < core.len() implies !ascii_alphanumeric(#[trigger] core[i])
            && core[i] != '_' by {
            assert(label.contains(core[i]));
        }
        lemma_parts_are_hyphens(core, core.len() as int);
        lemma_hyphens_vanish(parts);
        assert(bare_right(bare_left(parts)) =~= seq![]);
    }
}

/// An identifier without a hyphen at either end stands for itself.
proof fn lemma_slug_stays(s: Seq<char>)
    requires
        is_slug(s),
        s.len() > 0,
        s[0] != '-',
        s.last() != '-',
    ensures
        slug_text(s) == s,
{
    assert(is_slug_char(s[0]) && is_slug_char(s[s.len() - 1]));
    assert(trimmed(s) == s);
    assert(all_ascii(s)) by {
        assert forall|i: int| 0 <= i < s.len() implies (#[trigger] s[i] as u32) < 128 by {
            assert(is_slug_char(s[i]));
        }
    }
    assert(lowercase(s) =~= s) by {
        assert forall|i: int| 0 <= i < s.len() implies ascii_lower(#[trigger] s[i]) == s[i] by {
            assert(is_slug_char(s[i]));
        }
    }
    lemma_parts_stay(s, s.len() as int);
    assert(s.take(s.len() as int) =~= s);
}

proof fn lemma_parts_stay(s: Seq<char>, n: int)
    requires
        is_slug(s),
        0 <= n <= s.len(),
    ensures
        slug_parts(s, n) == s.take(n),
    decreases n,
{
    if n > 0 {
        lemma_parts_stay(s, n - 1);
        assert(is_slug_char(s[n - 1]));
        assert(s.take(n) =~= s.take(n - 1) + seq![s[n - 1]]);
    } else {
        assert(s.take(0) =~= seq![]);
    }
}

proof fn lemma_parts_are_slug(core: Seq<char>, n: int)
    requires
        all_ascii(core),
        0 <= n <= core.len(),
    ensures
        is_slug(slug_parts(lowercase(core), n)),
    decreases n,
{
    if n > 0 {
        lemma_parts_are_slug(core, n - 1);
        let lower = lowercase(core);
        assert((core[n - 1] as u32) < 128);
        assert(lower[n - 1] == ascii_lower(core[n - 1]));
        let c = lower[n - 1];
        assert(is_slug(slug_part(c)));
        let (before, now) = (slug_parts(lower, n - 1), slug_parts(lower, n));
        assert forall|i: int| 0 <= i < now.len() implies is_slug_char(#[trigger] now[i]) by {
            if i < before.len() {
                assert(now[i] == before[i]);
            } else {
                assert(now[i] == slug_part(c)[i - before.len()]);
            }
        }
    }
}

proof fn lemma_parts_are_hyphens(core: Seq<char>, n: int)
    requires
        all_ascii(core),
        0 <= n <= core.len(),
        forall|i: int|
            0 <= i < core.len() ==> !ascii_alphanumeric(#[trigger] core[i]) && core[i] != '_',
    ensures
        forall|i: int|
            0 <= i < slug_parts(lowercase(core), n).len() ==> #[trigger] slug_parts(
                lowercase(core),
                n,
            )[i] == '-',
    decreases n,
{
    if n > 0 {
        lemma_parts_are_hyphens(core, n - 1);
        let lower = lowercase(core);
        assert((core[n - 1] as u32) < 128 && !ascii_alphanumeric(core[n - 1]));
        assert(lower[n - 1] == core[n - 1]);
        let (before, now) = (slug_parts(lower, n - 1), slug_parts(lower, n));
        assert forall|i: int| 0 <= i < now.len() implies #[trigger] now[i] == '-' by {
            if i < before.len() {
                assert(now[i] == before[i]);
            }
        }
    }
}

proof fn lemma_hyphens_vanish(s: Seq<char>)
    requires
        forall|i: int| 0 <= i < s.len() ==> #[trigger] s[i] == '-',
    ensures
        bare_left(s).len() == 0,
    decreases s.len(),
{
    if s.len() > 0 {
        assert forall|i: int| 0 <= i < s.skip(1).len() implies #[trigger] s.skip(1)[i] == '-' by {
            assert(s.skip(1)[i] == s[i + 1]);
        }
        lemma_hyphens_vanish(s.skip(1));
    }
}

proof fn lemma_bare_left_within(s: Seq<char>)
    ensures
        forall|i: int| 0 <= i < bare_left(s).len() ==> s.contains(#[trigger] bare_left(s)[i]),
    decreases s.len(),
{
    if s.len() > 0 && s[0] == '-' {
        let rest = s.skip(1);
        lemma_bare_left_within(rest);
        assert forall|i: int| 0 <= i < bare_left(s).len() implies s.contains(
            #[trigger] bare_left(s)[i],
        ) by {
            assert(rest.contains(bare_left(rest)[i]));
            let j = choose|j: int| 0 <= j < rest.len() && rest[j] == bare_left(rest)[i];
            assert(s[j + 1] == rest[j]);
        }
    }
}

proof fn lemma_bare_right_within(s: Seq<char>)
    ensures
        forall|i: int| 0 <= i < bare_right(s).len() ==> s.contains(#[trigger] bare_right(s)[i]),
    decreases s.len(),
{
    if s.len() > 0 && s.last() == '-' {
        let rest = s.drop_last();
        lemma_bare_right_within(rest);
        assert forall|i: int| 0 <= i < bare_right(s).len() implies s.contains(
            #[trigger] bare_right(s)[i],
        ) by {
            assert(rest.contains(bare_right(rest)[i]));
            let j = choose|j: int| 0 <= j < rest.len() && rest[j] == bare_right(rest)[i];
            assert(s[j] == rest[j]);
        }
    }
}

proof fn lemma_bare_left(s: Seq<char>)
    ensures
        bare_left(s).len() > 0 ==> bare_left(s)[0] != '-',
    decreases s.len(),
{
    if s.len() > 0 && s[0] == '-' {
        lemma_bare_left(s.skip(1));
    }
}

proof fn lemma_bare_right(s: Seq<char>)
    ensures
        bare_right(s).len() > 0 ==> bare_right(s).last() != '-' && bare_right(s)[0] == s[0],
    decreases s.len(),
{
    if s.len() > 0 && s.last() == '-' {
        lemma_bare_right(s.drop_last());
    }
}

/// Where a mark sits: its distances from the right and the bottom edge in
/// shorter sides, and the shorter side that they were taken at.
#[derive(Clone, Copy)]
pub struct Place {
    pub reference: Option<Number>,
    pub right: Option<Number>,
    pub bottom: Option<Number>,
}

/// A watermark: coverage and colour per pixel, at a reference shorter side.
pub struct Profile {
    pub id: String,
    pub label: String,
    pub ref_short_side: Number,
    pub source: String,
    pub created: String,
    pub place: Option<Place>,
    pub mask_dilate: Option<(usize, usize)>,
    pub aw: usize,
    pub ah: usize,
    pub alpha: Vec<Number>,
    pub color: Vec<Number>,
}

impl Profile {
    /// One coverage and three colour values per pixel.
    pub open spec fn wf(&self) -> bool {
        &&& self.alpha@.len() == self.aw * self.ah
        &&& self.color@.len() == 3 * (self.aw * self.ah)
        &&& measurable(self.aw as int, self.ah as int)
        &&& self.aw <= 0xffff_ffff
        &&& self.ah <= 0xffff_ffff
    }
}

/// What the file beside the two pictures of a profile says; what it does not
/// say, or not in the expected form, is absent.
pub struct ProfileMeta {
    pub id: Option<String>,
    pub label: Option<String>,
    pub ref_short_side: Option<Number>,
    pub source: Option<String>,
    pub created: Option<String>,
    pub place: Option<Place>,
    pub mask_dilate: Option<(usize, usize)>,
}

/// A text that may be absent.
pub open spec fn told(t: Option<String>, otherwise: Seq<char>) -> Seq<char> {
    match t {
        Some(s) => s@,
        None => otherwise,
    }
}

/// The coverage of a byte.
pub open spec fn coverage_of(v: u8) -> Number {
    Number::spec_int(v as int).spec_over(Number::spec_int(255)).spec_short()
}

pub open spec fn coverages(bytes: Seq<u8>) -> Seq<Number> {
    Seq::new(bytes.len(), |i: int| coverage_of(bytes[i]))
}

pub open spec fn plain_numbers(bytes: Seq<u8>) -> Seq<Number> {
    Seq::new(bytes.len(), |i: int| Number::spec_int(bytes[i] as int))
}

/// The message for two pictures of different sizes.
pub open spec fn mismatch_message(id: Seq<char>) -> Seq<char> {
    "alpha/color size mismatch for profile "@ + id
}

/// What is wrong with the files of a profile: the coverage, the colours, their
/// sizes, and last what stands beside them.
pub open spec fn profile_fault(
    id: Seq<char>,
    alpha_png: Seq<u8>,
    color_png: Seq<u8>,
    meta: Result<ProfileMeta, String>,
) -> Option<Seq<char>> {
    match gray_fault(alpha_png, Format::Png) {
        Some(message) => Some(message),
        None => match decoded_rgb(color_png, Format::Png) {
            Err(message) => Some(message),
            Ok(c) => if !measurable(c.0 as int, c.1 as int) {
                Some(too_large())
            } else if gray_size(alpha_png, Format::Png) != (c.0, c.1) {
                Some(mismatch_message(id))
            } else {
                match meta {
                    Err(e) => Some(e@),
                    Ok(_) => None,
                }
            },
        },
    }
}

/// The profile holds what its files say.
pub open spec fn holds_files(
    p: Profile,
    id: Seq<char>,
    alpha: Plain,
    color: Plain,
    meta: ProfileMeta,
) -> bool {
    &&& p.wf()
    &&& p.aw == alpha.0
    &&& p.ah == alpha.1
    &&& p.alpha@ == coverages(alpha.2)
    &&& p.color@ == plain_numbers(color.2)
    &&& p.id@ == told(meta.id, id)
    &&& p.label@ == told(meta.label, ""@)
    &&& p.source@ == told(meta.source, ""@)
    &&& p.created@ == told(meta.created, ""@)
    &&& p.ref_short_side == (match meta.ref_short_side {
        Some(v) => v,
        None => Number::spec_int(1600),
    })
    &&& p.place == meta.place
    &&& p.mask_dilate == meta.mask_dilate
}

/// The profile is one that reading its files may give.
pub open spec fn is_read(
    p: Profile,
    id: Seq<char>,
    alpha_png: Seq<u8>,
    color_png: Seq<u8>,
    meta: ProfileMeta,
) -> bool {
    exists|a: Plain| #[trigger]
        reads_gray(alpha_png, Format::Png, a) && holds_files(
            p,
            id,
            a,
            decoded_rgb(color_png, Format::Png)->Ok_0,
            meta,
        )
}

fn tell(t: Option<String>, otherwise: &str) -> (r: String)
    ensures
        r@ == told(t, otherwise@),
{
    match t {
        Some(s) => s,
        None => String::from_str(otherwise),
    }
}

fn cover(bytes: &[u8]) -> (r: Vec<Number>)
    ensures
        r@ == coverages(bytes@),
{
    let n: usize = bytes.len();
    let mut out: Vec<Number> = Vec::new();
    let mut i: usize = 0;
    while i < n
        invariant
            n == bytes@.len(),
            i <= n,
            out@ == coverages(bytes@).take(i as int),
        decreases n - i,
    {
        out.push(Number::from_int(bytes[i] as i64).over(Number::from_int(255)).short());
        i = i + 1;
        proof {
            assert(out@ =~= coverages(bytes@).take(i as int));
        }
    }
    proof {
        assert(out@ =~= coverages(bytes@));
    }
    out
}

/// Bytes as numbers.
pub fn numbers_of(bytes: &[u8]) -> (r: Vec<Number>)
    ensures
        r@ == plain_numbers(bytes@),
{
    let n: usize = bytes.len();
    let mut out: Vec<Number> = Vec::new();
    let mut i: usize = 0;
    while i < n
        invariant
            n == bytes@.len(),
            i <= n,
            out@ == plain_numbers(bytes@).take(i as int),
        decreases n - i,
    {
        out.push(Number::from_int(bytes[i] as i64));
        i = i + 1;
        proof {
            assert(out@ =~= plain_numbers(bytes@).take(i as int));
        }
    }
    proof {
        assert(out@ =~= plain_numbers(bytes@));
    }
    out
}

/// Reads a profile out of its two pictures and what stands beside them.
pub fn profile_from_bytes(
    id: &str,
    alpha_png: &[u8],
    color_png: &[u8],
    meta: Result<ProfileMeta, String>,
) -> (r: Result<Profile, String>)
    ensures
        match profile_fault(id@, alpha_png@, color_png@, meta) {
            Some(message) => fails_with(r, message),
            None => r matches Ok(p) && is_read(p, id@, alpha_png@, color_png@, meta->Ok_0),
        },
{
    let alpha = match open_mask(alpha_png, Format::Png) {
        Ok(mask) => mask,
        Err(e) => {
            return Err(e);
        },
    };
    let color = match open_picture(color_png, Format::Png) {
        Ok(picture) => picture,
        Err(e) => {
            return Err(e);
        },
    };
    if alpha.width != color.width || alpha.height != color.height {
        let mut message = String::from_str("alpha/color size mismatch for profile ");
        message.append(id);
        return Err(message);
    }
    proof {
        let a: Plain = (alpha.width, alpha.height, alpha.data@);
        assert(reads_gray(alpha_png@, Format::Png, a));
    }
    let meta = match meta {
        Ok(meta) => meta,
        Err(e) => {
            return Err(e);
        },
    };
    Ok(
        Profile {
            id: tell(meta.id, id),
            label: tell(meta.label, ""),
            ref_short_side: match meta.ref_short_side {
                Some(v) => v,
                None => Number::from_int(1600),
            },
            source: tell(meta.source, ""),
            created: tell(meta.created, ""),
            place: meta.place,
            mask_dilate: meta.mask_dilate,
            aw: alpha.width as usize,
            ah: alpha.height as usize,
            alpha: cover(alpha.data.as_slice()),
            color: numbers_of(color.data.as_slice()),
        },
    )
}

/// Where a profile is read from.
#[derive(Clone, Copy, Debug, PartialEq, Eq, Structural)]
pub enum Origin {
    /// The directory of the profile.
    Directory,
    /// The built-in profile with this index.
    Builtin { index: usize },
}

/// The index of the first text equal to `id`, or the number of texts.
pub open spec fn first_of(ids: Seq<Seq<char>>, id: Seq<char>) -> int
    decreases ids.len(),
{
    if ids.len() == 0 || ids[0] == id {
        0
    } else {
        1 + first_of(ids.skip(1), id)
    }
}

pub open spec fn not_found_message(id: Seq<char>) -> Seq<char> {
    "profile not found: "@ + id
}

fn find(ids: &[String], id: &str) -> (r: usize)
    ensures
        r == first_of(texts(ids@), id@),
        r <= ids@.len(),
        r < ids@.len() <==> texts(ids@).contains(id@),
{
    let n: usize = ids.len();
    let wanted = chars_of(id);
    let mut i: usize = 0;
    let ghost all = texts(ids@);
    proof {
        assert(all.skip(0) =~= all);
    }
    while i < n
        invariant
            n == ids@.len(),
            all == texts(ids@),
            wanted@ == id@,
            i <= n,
            first_of(all, id@) == i + first_of(all.skip(i as int), id@),
            forall|k: int| 0 <= k < i ==> #[trigger] all[k] != id@,
        decreases n - i,
    {
        let own = chars_of(ids[i].as_str());
        if same(own.as_slice(), wanted.as_slice()) {
            proof {
                assert(all[i as int] == id@);
            }
            return i;
        }
        proof {
            assert(all.skip(i as int).skip(1) =~= all.skip(i + 1));
            assert(all.skip(i as int)[0] == all[i as int]);
        }
        i = i + 1;
    }
    i
}

/// Where the profile `id` is read from: its directory, if it is there, else
/// the built-in profiles.
pub fn load_profile(id: &str, has_directory: bool, builtin: &[String]) -> (r: Result<
    Origin,
    String,
>)
    ensures
        if has_directory {
            r == Ok::<Origin, String>(Origin::Directory)
        } else if texts(builtin@).contains(id@) {
            r matches Ok(Origin::Builtin { index }) && index == first_of(texts(builtin@), id@)
        } else {
            fails_with(r, not_found_message(id@))
        },
{
    if has_directory {
        return Ok(Origin::Directory);
    }
    let index: usize = find(builtin, id);
    if index < builtin.len() {
        return Ok(Origin::Builtin { index });
    }
    let mut message = String::from_str("profile not found: ");
    message.append(id);
    Err(message)
}

/// The identifiers of some profiles.
pub open spec fn ids_of(profiles: Seq<Profile>) -> Seq<Seq<char>> {
    Seq::new(profiles.len(), |i: int| profiles[i].id@)
}

/// Profiles and, behind them, the built-in ones that none before shadows.
pub open spec fn with_builtin(loaded: Seq<Profile>, builtin: Seq<Profile>) -> Seq<Profile>
    decreases builtin.len(),
{
    if builtin.len() == 0 {
        loaded
    } else if ids_of(loaded).contains(builtin[0].id@) {
        with_builtin(loaded, builtin.skip(1))
    } else {
        with_builtin(loaded.push(builtin[0]), builtin.skip(1))
    }
}

fn has_id(profiles: &Vec<Profile>, id: &str) -> (r: bool)
    ensures
        r == ids_of(profiles@).contains(id@),
{
    let n: usize = profiles.len();
    let wanted = chars_of(id);
    let mut i: usize = 0;
    while i < n
        invariant
            n == profiles@.len(),
            wanted@ == id@,
            i <= n,
            forall|k: int| 0 <= k < i ==> #[trigger] profiles@[k].id@ != id@,
        decreases n - i,
    {
        let own = chars_of(profiles[i].id.as_str());
        if same(own.as_slice(), wanted.as_slice()) {
            proof {
                assert(ids_of(profiles@)[i as int] == id@);
            }
            return true;
        }
        i = i + 1;
    }
    proof {
        assert forall|k: int| 0 <= k < ids_of(profiles@).len() implies #[trigger] ids_of(
            profiles@,
        )[k] != id@ by {
            assert(profiles@[k].id@ != id@);
        }
    }
    false
}

/// All profiles: those that were read, then the built-in ones that no profile
/// of the same identifier shadows.
pub fn list_profiles(loaded: Vec<Profile>, builtin: Vec<Profile>) -> (r: Vec<Profile>)
    ensures
        r@ == with_builtin(loaded@, builtin@),
{
    let mut out = loaded;
    let mut rest = builtin;
    while rest.len() > 0
        invariant
            with_builtin(out@, rest@) == with_builtin(loaded@, builtin@),
        decreases rest@.len(),
    {
        let ghost before = rest@;
        let p = rest.remove(0);
        proof {
            assert(rest@ =~= before.skip(1));
        }
        if !has_id(&out, p.id.as_str()) {
            out.push(p);
        }
    }
    out
}

/// Every profile that was read is listed, in its place, and every built-in
/// identifier is listed too.
pub proof fn lemma_all_listed(loaded: Seq<Profile>, builtin: Seq<Profile>)
    ensures
        with_builtin(loaded, builtin).len() >= loaded.len(),
        with_builtin(loaded, builtin).take(loaded.len() as int) == loaded,
        forall|k: int|
            0 <= k < builtin.len() ==> ids_of(with_builtin(loaded, builtin)).contains(
                #[trigger] builtin[k].id@,
            ),
    decreases builtin.len(),
{
    let all = with_builtin(loaded, builtin);
    if builtin.len() == 0 {
        assert(loaded.take(loaded.len() as int) =~= loaded);
    } else {
        let first = builtin[0];
        let next = if ids_of(loaded).contains(first.id@) {
            loaded
        } else {
            loaded.push(first)
        };
        lemma_all_listed(next, builtin.skip(1));
        assert(all.take(loaded.len() as int) =~= loaded) by {
            assert(all.take(next.len() as int).take(loaded.len() as int) =~= all.take(
                loaded.len() as int,
            ));
            assert(next.take(loaded.len() as int) =~= loaded);
        }
        assert(ids_of(next).contains(first.id@)) by {
            if ids_of(loaded).contains(first.id@) {
            } else {
                assert(ids_of(next)[loaded.len() as int] == first.id@);
            }
        }
        let at = choose|i: int| 0 <= i < next.len() && #[trigger] ids_of(next)[i] == first.id@;
        assert(all.take(next.len() as int)[at] == next[at]);
        assert(ids_of(all)[at] == first.id@);
        assert forall|k: int| 0 <= k < builtin.len() implies ids_of(all).contains(
            #[trigger] builtin[k].id@,
        ) by {
            if k > 0 {
                assert(builtin.skip(1)[k - 1].id@ == builtin[k].id@);
            }
        }
    }
}

/// What a list of profiles shows of one.
pub struct ProfileSummary {
    pub id: String,
    pub label: String,
    pub created: String,
    pub source: String,
    pub width: usize,
    pub height: usize,
    pub builtin: bool,
}

/// The summary shows the profile.
pub open spec fn summarises(s: ProfileSummary, p: Profile, builtin: Seq<Seq<char>>) -> bool {
    &&& s.id@ == p.id@
    &&& s.label@ == p.label@
    &&& s.created@ == p.created@
    &&& s.source@ == p.source@
    &&& s.width == p.aw
    &&& s.height == p.ah
    &&& s.builtin == builtin.contains(p.id@)
}

/// One summary per profile, which tells those with a built-in identifier.
pub fn profile_summaries(profiles: &[Profile], builtin: &[String]) -> (r: Vec<ProfileSummary>)
    ensures
        r@.len() == profiles@.len(),
        forall|i: int|
            0 <= i < r@.len() ==> summarises(#[trigger] r@[i], profiles@[i], texts(builtin@)),
{
    let n: usize = profiles.len();
    let mut out: Vec<ProfileSummary> = Vec::new();
    let mut i: usize = 0;
    while i < n
        invariant
            n == profiles@.len(),
            i <= n,
            out@.len() == i,
            forall|k: int|
                0 <= k < i ==> summarises(#[trigger] out@[k], profiles@[k], texts(builtin@)),
        decreases n - i,
    {
        let p = &profiles[i];
        let known: bool = find(builtin, p.id.as_str()) < builtin.len();
        out.push(
            ProfileSummary {
                id: String::from_str(p.id.as_str()),
                label: String::from_str(p.label.as_str()),
                created: String::from_str(p.created.as_str()),
                source: String::from_str(p.source.as_str()),
                width: p.aw,
                height: p.ah,
                builtin: known,
            },
        );
        i = i + 1;
    }
    out
}

/// An identifier that names no directory of its own.
pub open spec fn is_bad_id(id: Seq<char>) -> bool {
    ||| id.len() == 0
    ||| id.contains('/')
    ||| id.contains('\\')
    ||| exists|i: int| 0 <= i < id.len() - 1 && #[trigger] id[i] == '.' && id[i + 1] == '.'
}

fn bad_id(id: &[char]) -> (r: bool)
    ensures
        r == is_bad_id(id@),
{
    let n: usize = id.len();
    if n == 0 {
        return true;
    }
    let mut i: usize = 0;
    while i < n
        invariant
            n == id@.len(),
            i <= n,
            forall|k: int| 0 <= k < i ==> #[trigger] id@[k] != '/' && id@[k] != '\\',
            forall|k: int|
                0 <= k < i && k < n - 1 ==> !(#[trigger] id@[k] == '.' && id@[k + 1] == '.'),
        decreases n - i,
    {
        if id[i] == '/' || id[i] == '\\' {
            proof {
                assert(id@.contains(id@[i as int]));
            }
            return true;
        }
        if i + 1 < n && id[i] == '.' && id[i + 1] == '.' {
            proof {
                assert(id@[i as int] == '.' && id@[i + 1] == '.');
            }
            return true;
        }
        i = i + 1;
    }
    false
}

pub open spec fn builtin_message(id: Seq<char>) -> Seq<char> {
    "builtin profile cannot be deleted: "@ + id
}

pub open spec fn bad_id_message(id: Seq<char>) -> Seq<char> {
    "invalid profile id: "@ + id
}

/// Whether the profile `id` may be deleted: not a built-in one, not by an
/// identifier that leads elsewhere, and only one that is there.
pub fn delete_profile(id: &str, builtin: &[String], present: bool) -> (r: Result<(), String>)
    ensures
        if texts(builtin@).contains(id@) {
            fails_with(r, builtin_message(id@))
        } else if is_bad_id(id@) {
            fails_with(r, bad_id_message(id@))
        } else if !present {
            fails_with(r, not_found_message(id@))
        } else {
            r is Ok
        },
{
    if find(builtin, id) < builtin.len() {
        let mut message = String::from_str("builtin profile cannot be deleted: ");
        message.append(id);
        return Err(message);
    }
    if bad_id(chars_of(id).as_slice()) {
        let mut message = String::from_str("invalid profile id: ");
        message.append(id);
        return Err(message);
    }
    if !present {
        let mut message = String::from_str("profile not found: ");
        message.append(id);
        return Err(message);
    }
    Ok(())
}

/// The byte that a coverage is stored as.
pub open spec fn coverage_byte(v: Number) -> u8 {
    byte_of(v.spec_times(Number::spec_int(255)).spec_short())
}

/// A number between 0 and 255 without its fraction.
pub open spec fn byte_of(v: Number) -> u8 {
    let t = v.spec_clamp(Number::spec_int(0), Number::spec_int(255)).spec_trunc();
    larger(smaller(t, 255), 0) as u8
}

pub open spec fn coverage_bytes(v: Seq<Number>) -> Seq<u8> {
    Seq::new(v.len(), |i: int| coverage_byte(v[i]))
}

pub open spec fn plain_bytes(v: Seq<Number>) -> Seq<u8> {
    Seq::new(v.len(), |i: int| byte_of(v[i]))
}

/// The byte of a number.
pub fn to_byte(v: Number) -> (r: u8)
    ensures
        r == byte_of(v),
{
    let t: i64 = v.clamp(Number::from_int(0), Number::from_int(255)).trunc();
    if t < 0 {
        0
    } else if t > 255 {
        255
    } else {
        t as u8
    }
}

fn bytes_of(v: &[Number], coverage: bool) -> (r: Vec<u8>)
    ensures
        r@ == if coverage {
            coverage_bytes(v@)
        } else {
            plain_bytes(v@)
        },
{
    let n: usize = v.len();
    let mut out: Vec<u8> = Vec::new();
    let mut i: usize = 0;
    let ghost goal = if coverage {
        coverage_bytes(v@)
    } else {
        plain_bytes(v@)
    };
    while i < n
        invariant
            n == v@.len(),
            i <= n,
            goal == if coverage {
                coverage_bytes(v@)
            } else {
                plain_bytes(v@)
            },
            out@ == goal.take(i as int),
        decreases n - i,
    {
        if coverage {
            out.push(to_byte(v[i].times(Number::from_int(255)).short()));
        } else {
            out.push(to_byte(v[i]));
        }
        i = i + 1;
        proof {
            assert(out@ =~= goal.take(i as int));
        }
    }
    proof {
        assert(out@ =~= goal);
    }
    out
}

pub open spec fn exists_message(id: Seq<char>) -> Seq<char> {
    "profile already exists: "@ + id
}

/// The two pictures of a profile as files.
pub struct ProfileFiles {
    pub alpha_png: Vec<u8>,
    pub color_png: Vec<u8>,
}

/// The two pictures of a profile as PNG files. A profile that is there already
/// is only written again if `overwrite` is set.
pub fn save_profile(profile: &Profile, overwrite: bool, present: bool) -> (r: Result<
    ProfileFiles,
    String,
>)
    requires
        profile.wf(),
    ensures
        ({
            let (w, h) = (profile.aw as u32, profile.ah as u32);
            if present && !overwrite {
                fails_with(r, exists_message(profile.id@))
            } else {
                match encoded_gray(w, h, coverage_bytes(profile.alpha@)) {
                    Err(message) => fails_with(r, message),
                    Ok(a) => match encoded_rgb(w, h, plain_bytes(profile.color@), Format::Png) {
                        Err(message) => fails_with(r, message),
                        Ok(c) => r matches Ok(files) && files.alpha_png@ == a && files.color_png@
                            == c,
                    },
                }
            }
        }),
        r matches Ok(files) ==> profile.aw * profile.ah <= 0x200_0000 ==> {
            let (w, h) = (profile.aw as u32, profile.ah as u32);
            &&& reads_as_gray(files.alpha_png@, w, h, coverage_bytes(profile.alpha@))
            &&& reads_as_rgb(files.color_png@, w, h, plain_bytes(profile.color@))
        },
{
    if present && !overwrite {
        let mut message = String::from_str("profile already exists: ");
        message.append(profile.id.as_str());
        return Err(message);
    }
    let width: u32 = profile.aw as u32;
    let height: u32 = profile.ah as u32;
    let alpha = Mask { width, height, data: bytes_of(profile.alpha.as_slice(), true) };
    let color = Picture { width, height, data: bytes_of(profile.color.as_slice(), false) };
    let alpha_png = match save_mask(&alpha) {
        Ok(bytes) => bytes,
        Err(e) => {
            return Err(e);
        },
    };
    match save_result(&color, Format::Png) {
        Ok(color_png) => Ok(ProfileFiles { alpha_png, color_png }),
        Err(e) => Err(e),
    }
}

/// The two pictures of a profile can be read back, and whatever stands beside
/// them then, the profile that they give has the size, the coverages and the
/// colours of the one that was written, at the precision of bytes.
pub proof fn lemma_profile_reads_back(
    profile: Profile,
    files: ProfileFiles,
    id: Seq<char>,
    meta: ProfileMeta,
    back: Profile,
)
    requires
        profile.wf(),
        reads_as_gray(
            files.alpha_png@,
            profile.aw as u32,
            profile.ah as u32,
            coverage_bytes(profile.alpha@),
        ),
        reads_as_rgb(
            files.color_png@,
            profile.aw as u32,
            profile.ah as u32,
            plain_bytes(profile.color@),
        ),
    ensures
        profile_fault(id, files.alpha_png@, files.color_png@, Ok(meta)) is None,
        is_read(back, id, files.alpha_png@, files.color_png@, meta) ==> {
            &&& back.aw == profile.aw
            &&& back.ah == profile.ah
            &&& back.alpha@ == coverages(coverage_bytes(profile.alpha@))
            &&& back.color@ == plain_numbers(plain_bytes(profile.color@))
        },
{
    let (w, h) = (profile.aw as u32, profile.ah as u32);
    let data = coverage_bytes(profile.alpha@);
    if is_read(back, id, files.alpha_png@, files.color_png@, meta) {
        let c = decoded_rgb(files.color_png@, Format::Png)->Ok_0;
        let a = choose|a: Plain| #[trigger]
            reads_gray(files.alpha_png@, Format::Png, a) && holds_files(back, id, a, c, meta);
        lemma_gray_reads_back(files.alpha_png@, w, h, data, a);
    }
    lemma_gray_reads_back(files.alpha_png@, w, h, data, (w, h, data));
}

/// The byte of a number is its integer part, within what a byte can hold.
pub proof fn lemma_byte_by_amount(v: Number)
    requires
        sound(v),
        modest(amount(v)),
    ensures
        amount(v) <= (0 as real) ==> byte_of(v) == 0,
        (0 as real) <= amount(v) < (256 as real) ==> (byte_of(v) as real) <= amount(v) < ((byte_of(
            v,
        ) + 1) as real),
        amount(v) >= (255 as real) ==> byte_of(v) == 255,
{
    let (low, high) = (Number::spec_int(0), Number::spec_int(255));
    lemma_int_amount(0);
    lemma_int_amount(255);
    lemma_clamp_by_amount(v, low, high);
    let q = v.spec_clamp(low, high);
    lemma_trunc_by_amount(q);
    let t = q.spec_trunc();
    assert(0 <= t <= 255);
}

/// A coverage that is read from a byte is that share of 255.
pub proof fn lemma_coverage_is_a_share(bytes: Seq<u8>, i: int)
    requires
        0 <= i < bytes.len(),
    ensures
        sound(coverages(bytes)[i]),
        within(
            amount(coverages(bytes)[i]),
            (bytes[i] as real) / (255 as real),
            (1 as real) / (0x40_0000 as real),
        ),
{
    lemma_int_amount(bytes[i] as int);
    lemma_int_amount(255);
    lemma_quotient_close(Number::spec_int(bytes[i] as int), Number::spec_int(255));
}

/// A coverage between zero and one is stored as a byte that is that share of 255,
/// less than one below it; none at all is stored as 0, and a whole one as 255.
pub proof fn lemma_stored_coverage_is_near(v: Seq<Number>, i: int)
    requires
        0 <= i < v.len(),
        sound(v[i]),
        (0 as real) <= amount(v[i]) <= (1 as real),
    ensures
        ({
            let (b, x) = (coverage_bytes(v)[i] as real, amount(v[i]) * (255 as real));
            let eps = (1 as real) / (1000 as real);
            &&& b <= x + eps
            &&& x - eps < b + (1 as real)
            &&& amount(v[i]) == (0 as real) ==> b <= (0 as real)
        }),
{
    let a = v[i];
    let x = amount(a) * (255 as real);
    lemma_int_amount(255);
    assert((0 as real) <= x && x <= (255 as real)) by (nonlinear_arith)
        requires
            (0 as real) <= amount(a),
            amount(a) <= (1 as real),
            x == amount(a) * (255 as real),
    ;
    lemma_product_close(a, Number::spec_int(255));
    lemma_byte_by_amount(a.spec_times(Number::spec_int(255)).spec_short());
}

/// A profile that is written and read back has, in every cell, a coverage that
/// is at most one part in 255 below the one that was written, and in every
/// channel the integer part of the colour.
pub proof fn lemma_profile_keeps_its_mark(
    profile: Profile,
    files: ProfileFiles,
    id: Seq<char>,
    meta: ProfileMeta,
    back: Profile,
    i: int,
    j: int,
)
    requires
        profile.wf(),
        reads_as_gray(
            files.alpha_png@,
            profile.aw as u32,
            profile.ah as u32,
            coverage_bytes(profile.alpha@),
        ),
        reads_as_rgb(
            files.color_png@,
            profile.aw as u32,
            profile.ah as u32,
            plain_bytes(profile.color@),
        ),
        is_read(back, id, files.alpha_png@, files.color_png@, meta),
        0 <= i < profile.alpha@.len(),
        sound(profile.alpha@[i]),
        (0 as real) <= amount(profile.alpha@[i]) <= (1 as real),
        0 <= j < profile.color@.len(),
        sound(profile.color@[j]),
        (0 as real) <= amount(profile.color@[j]) < (256 as real),
    ensures
        ({
            let (a, c) = (amount(profile.alpha@[i]), amount(profile.color@[j]));
            let (b, d) = (amount(back.alpha@[i]), amount(back.color@[j]));
            let eps = (1 as real) / (10000 as real);
            &&& back.aw == profile.aw && back.ah == profile.ah
            &&& a - (1 as real) / (255 as real) - eps <= b <= a + eps
            &&& d <= c < d + (1 as real)
        }),
{
    lemma_profile_reads_back(profile, files, id, meta, back);
    let bytes = coverage_bytes(profile.alpha@);
    lemma_stored_coverage_is_near(profile.alpha@, i);
    lemma_coverage_is_a_share(bytes, i);
    lemma_byte_by_amount(profile.color@[j]);
    let plain = plain_bytes(profile.color@);
    lemma_int_amount(plain[j] as int);
}

} // verus!
