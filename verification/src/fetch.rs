//! Deciding how a model file is downloaded, resumed, split and put together.

use crate::text::{
    ascii_lowered, chars_of, decimal, digits, digits_of, fails_with, has_head, is_digit, join,
    joined, lemma_texts_push, lower_ascii, parse_unsigned, push_chars, push_decimal, same, slice_of,
    starts_with, text_of, texts, unsigned,
};
use vstd::prelude::*;

verus! {

/// Into how many segments a large file is split.
pub const SEGMENTS: u64 = 6;

/// From this size on a file is fetched in segments.
pub const PARALLEL_MIN_SIZE: u64 = 0x100_0000;

/// How often a segment is tried.
pub const SEGMENT_RETRIES: u32 = 3;

/// What is remembered of a download that is not finished: where it came from,
/// how long the remote file is (zero for unknown) and its tag (empty for
/// unknown).
pub struct PartMeta {
    pub url: String,
    pub total: u64,
    pub etag: String,
}

/// The bytes at hand can be those of the remote file: the length is known and
/// equal, and so is the tag where both have one. The address does not matter.
pub open spec fn compatible(old_meta: &PartMeta, new_meta: &PartMeta) -> bool {
    &&& new_meta.total != 0
    &&& old_meta.total == new_meta.total
    &&& old_meta.etag@.len() > 0 && new_meta.etag@.len() > 0 ==> old_meta.etag@ == new_meta.etag@
}

/// Tells whether a download that is not finished may go on.
pub fn meta_compatible(old_meta: &PartMeta, new_meta: &PartMeta) -> (r: bool)
    ensures
        r == compatible(old_meta, new_meta),
{
    if new_meta.total == 0 || old_meta.total != new_meta.total {
        return false;
    }
    let a = chars_of(old_meta.etag.as_str());
    let b = chars_of(new_meta.etag.as_str());
    if a.len() > 0 && b.len() > 0 {
        return same(a.as_slice(), b.as_slice());
    }
    true
}

/// Whether two downloads may share bytes does not depend on which came first.
pub proof fn lemma_compatible_symmetric(a: &PartMeta, b: &PartMeta)
    ensures
        compatible(a, b) == compatible(b, a),
{
}

/// What follows the stem in the name of a temporary file: nothing, the
/// metadata, the merged file, or the number of a segment.
pub open spec fn is_temp_rest(rest: Seq<char>) -> bool {
    ||| rest.len() == 0
    ||| rest == ".json"@
    ||| rest == ".merge"@
    ||| forall|i: int| 0 <= i < rest.len() ==> is_digit(#[trigger] rest[i])
}

/// A name is that of a temporary file of a download.
pub open spec fn is_temp(name: Seq<char>, stem: Seq<char>) -> bool {
    let head = stem + ".part"@;
    has_head(name, head) && is_temp_rest(name.skip(head.len() as int))
}

/// Tells whether a name is that of a temporary file of the download with this
/// stem.
pub fn is_temp_of(name: &str, stem: &str) -> (r: bool)
    ensures
        r == is_temp(name@, stem@),
{
    let n = chars_of(name);
    let mut head = chars_of(stem);
    let mut part = chars_of(".part");
    head.append(&mut part);
    proof {
        assert(head@ =~= stem@ + ".part"@);
    }
    if !starts_with(n.as_slice(), head.as_slice()) {
        return false;
    }
    let rest = slice_of(n.as_slice(), head.len(), n.len());
    proof {
        assert(rest@ =~= name@.skip(head@.len() as int));
    }
    if rest.len() == 0 || same(rest.as_slice(), chars_of(".json").as_slice()) || same(
        rest.as_slice(),
        chars_of(".merge").as_slice(),
    ) {
        return true;
    }
    let mut i: usize = 0;
    while i < rest.len()
        invariant
            i <= rest@.len(),
            is_temp(name@, stem@) == is_temp_rest(rest@),
            rest@.len() > 0,
            rest@ != ".json"@,
            rest@ != ".merge"@,
            forall|k: int| 0 <= k < i ==> is_digit(#[trigger] rest@[k]),
        decreases rest@.len() - i,
    {
        let c: u32 = rest[i] as u32;
        if c < 48 || c > 57 {
            proof {
                assert(!is_digit(rest@[i as int]));
            }
            return false;
        }
        i = i + 1;
    }
    true
}

/// The name of the file that holds segment `i`.
pub open spec fn segment_name(stem: Seq<char>, i: int) -> Seq<char> {
    stem + ".part"@ + digits(i)
}

proof fn lemma_digits_are_digits(n: int)
    requires
        0 <= n,
    ensures
        forall|i: int| 0 <= i < digits(n).len() ==> is_digit(#[trigger] digits(n)[i]),
        digits(n).len() > 0,
    decreases n,
{
    if n >= 10 {
        lemma_digits_are_digits(n / 10);
        let d = digits(n);
        let rest = digits(n / 10);
        assert forall|i: int| 0 <= i < d.len() implies is_digit(#[trigger] d[i]) by {
            if i < rest.len() {
                assert(d[i] == rest[i]);
            }
        }
    }
}

/// Every temporary file that a download makes is recognised as such.
pub proof fn lemma_temp_names_recognised(stem: Seq<char>, i: int)
    requires
        0 <= i,
    ensures
        is_temp(stem + ".part"@, stem),
        is_temp(stem + ".part"@ + ".json"@, stem),
        is_temp(stem + ".part"@ + ".merge"@, stem),
        is_temp(segment_name(stem, i), stem),
{
    let head = stem + ".part"@;
    assert(head.take(head.len() as int) =~= head);
    assert(head.skip(head.len() as int) =~= seq![]);
    assert((head + ".json"@).take(head.len() as int) =~= head);
    assert((head + ".json"@).skip(head.len() as int) =~= ".json"@);
    assert((head + ".merge"@).take(head.len() as int) =~= head);
    assert((head + ".merge"@).skip(head.len() as int) =~= ".merge"@);
    lemma_digits_are_digits(i);
    assert((head + digits(i)).take(head.len() as int) =~= head);
    assert((head + digits(i)).skip(head.len() as int) =~= digits(i));
}

/// The position of the last dot of a file name that is not at its start, or
/// the length of the name.
pub open spec fn stem_len(name: Seq<char>, n: int) -> int
    decreases n,
{
    if n <= 1 {
        name.len() as int
    } else if name[n - 1] == '.' {
        n - 1
    } else {
        stem_len(name, n - 1)
    }
}

/// A file name without its extension; `..` has none.
pub open spec fn file_stem(name: Seq<char>) -> Seq<char> {
    if name == ".."@ {
        name
    } else {
        name.take(stem_len(name, name.len() as int))
    }
}

/// A file name without its extension.
pub fn stem_of(name: &str) -> (r: String)
    ensures
        r@ == file_stem(name@),
{
    let s = chars_of(name);
    if same(s.as_slice(), chars_of("..").as_slice()) {
        return name.to_owned();
    }
    let n: usize = s.len();
    let mut i: usize = n;
    while i > 1 && s[i - 1] != '.'
        invariant
            n == s@.len(),
            i <= n,
            stem_len(s@, i as int) == stem_len(s@, n as int),
        decreases i,
    {
        i = i - 1;
    }
    let end: usize = if i > 1 {
        i - 1
    } else {
        n
    };
    let head = slice_of(s.as_slice(), 0, end);
    proof {
        assert(s@.subrange(0, end as int) =~= s@.take(end as int));
    }
    text_of(head.as_slice())
}

/// The name of the metadata file of a download.
pub fn meta_path(dest: &str) -> (r: String)
    ensures
        r@ == file_stem(dest@) + ".part.json"@,
{
    stem_of(dest).concat(".part.json")
}

/// The name of the file that a download in one piece grows.
pub fn stream_path(dest: &str) -> (r: String)
    ensures
        r@ == file_stem(dest@) + ".part"@,
{
    stem_of(dest).concat(".part")
}

/// The name of the file in which segments are put together.
pub fn merge_path(dest: &str) -> (r: String)
    ensures
        r@ == file_stem(dest@) + ".part.merge"@,
{
    stem_of(dest).concat(".part.merge")
}

/// The name of the file that holds a segment.
pub fn segment_path(dest: &str, i: u64) -> (r: String)
    ensures
        r@ == segment_name(file_stem(dest@), i as int),
{
    let mut out = stem_of(dest).concat(".part");
    let ds = digits_of(i);
    push_chars(&mut out, ds.as_slice());
    out
}

/// What a server tells of a file: its length (zero for unknown), whether parts
/// can be asked for, and its tag (empty for unknown).
pub struct Probe {
    pub total: u64,
    pub accept_ranges: bool,
    pub etag: String,
}

/// A text holds another at some place.
pub open spec fn contains_text(s: Seq<char>, part: Seq<char>) -> bool {
    exists|i: int| 0 <= i <= s.len() && has_head(#[trigger] s.skip(i), part)
}

/// Whether a text holds another.
pub fn holds_text(s: &[char], part: &[char]) -> (r: bool)
    ensures
        r == contains_text(s@, part@),
{
    let n: usize = s.len();
    let mut i: usize = 0;
    loop
        invariant
            n == s@.len(),
            i <= n,
            forall|k: int| 0 <= k < i ==> !has_head(#[trigger] s@.skip(k), part@),
        decreases n - i,
    {
        let tail = slice_of(s, i, n);
        proof {
            assert(tail@ =~= s@.skip(i as int));
        }
        if starts_with(tail.as_slice(), part) {
            return true;
        }
        if i == n {
            return false;
        }
        i = i + 1;
    }
}

/// The length that a header gives; zero where it gives none.
pub open spec fn told_length(header: Option<Seq<char>>) -> u64 {
    match header {
        Some(v) => match unsigned(v) {
            Some(n) => n,
            None => 0,
        },
        None => 0,
    }
}

/// What an optional text holds.
pub open spec fn optional(s: Option<String>) -> Option<Seq<char>> {
    match s {
        Some(v) => Some(v@),
        None => None,
    }
}

/// Reads the length that a header gives.
pub fn read_length(header: &Option<String>) -> (r: u64)
    ensures
        r == told_length(optional(*header)),
{
    match header {
        Some(v) => {
            let s = chars_of(v.as_str());
            match parse_unsigned(s.as_slice()) {
                Some(n) => n,
                None => 0,
            }
        },
        None => 0,
    }
}

/// Reads what a server tells of a file.
pub fn read_probe(
    content_length: &Option<String>,
    accept_ranges: &Option<String>,
    etag: Option<String>,
) -> (r: Probe)
    ensures
        r.total == told_length(optional(*content_length)),
        r.accept_ranges == (accept_ranges matches Some(v) && contains_text(
            ascii_lowered(v@),
            "bytes"@,
        )),
        r.etag@ == match etag {
            Some(v) => v@,
            None => seq![],
        },
{
    let total: u64 = read_length(content_length);
    let ranges: bool = match accept_ranges {
        Some(v) => {
            let s = chars_of(v.as_str());
            let low = lower_ascii(s.as_slice());
            holds_text(low.as_slice(), chars_of("bytes").as_slice())
        },
        None => false,
    };
    let etag = match etag {
        Some(v) => v,
        None => {
            let none = String::new();
            proof {
                assert(none@ =~= seq![]);
            }
            none
        },
    };
    Probe { total, accept_ranges: ranges, etag }
}

/// How a download is done.
#[derive(Clone, Copy, Debug, PartialEq, Eq, Structural)]
pub enum Route {
    Parallel,
    Stream,
}

/// The plan of a download: whether what is left of an earlier one is thrown
/// away first, and how it is done.
#[derive(Clone, Copy, Debug, PartialEq, Eq, Structural)]
pub struct DownloadPlan {
    pub prune: bool,
    pub route: Route,
}

/// Plans a download. What an earlier one left is kept only where it can be
/// part of the same remote file.
pub fn plan_download(
    before: &Option<PartMeta>,
    meta: &PartMeta,
    accept_ranges: bool,
    parallel_min: u64,
) -> (r: DownloadPlan)
    ensures
        r.prune == !(before matches Some(m) && compatible(&m, meta)),
        r.route == if meta.total > 0 && accept_ranges && meta.total >= parallel_min {
            Route::Parallel
        } else {
            Route::Stream
        },
{
    let resumable: bool = match before {
        Some(m) => meta_compatible(m, meta),
        None => false,
    };
    let route = if meta.total > 0 && accept_ranges && meta.total >= parallel_min {
        Route::Parallel
    } else {
        Route::Stream
    };
    DownloadPlan { prune: !resumable, route }
}

/// A download in one piece: the length of the remote file (zero for unknown),
/// how much is at hand, and whether that is kept.
#[derive(Clone, Copy, Debug, PartialEq, Eq, Structural)]
pub struct StreamState {
    pub total: u64,
    pub existing: u64,
    pub resume: bool,
}

/// Starts a download in one piece. What is at hand is kept only where parts
/// can be asked for and it is a proper beginning of a file of known length.
pub fn stream_begin(accept_ranges: bool, total: u64, existing: u64) -> (r: StreamState)
    ensures
        r.total == total,
        r.existing == existing,
        r.resume == (accept_ranges && 0 < existing < total),
{
    StreamState {
        total,
        existing,
        resume: accept_ranges && total > 0 && existing > 0 && existing < total,
    }
}

/// What is done with a response.
#[derive(Clone, Copy, Debug, PartialEq, Eq, Structural)]
pub enum StreamStep {
    /// The server sends the whole file although a part was asked for: what is
    /// at hand is deleted and the whole file asked for.
    Restart,
    /// The body is received, behind what is at hand or from the start, until
    /// there are as many bytes (zero for unknown) in all.
    Receive { append: bool, expected: u64 },
}

/// How many bytes there must be in all; zero for unknown. The length told
/// beforehand counts more than that of the response.
pub open spec fn expected_total(total: u64, reported: u64) -> u64 {
    if total > 0 {
        total
    } else {
        reported
    }
}

/// Decides what is done with a response of the given status and length.
pub fn stream_response(state: &StreamState, status: u16, reported: u64) -> (r: StreamStep)
    requires
        state.resume ==> state.total > 0,
    ensures
        r == if state.resume && status != 206 {
            StreamStep::Restart
        } else {
            StreamStep::Receive {
                append: state.resume,
                expected: expected_total(state.total, reported),
            }
        },
{
    if state.resume && status != 206 {
        return StreamStep::Restart;
    }
    let expected: u64 = if state.total > 0 {
        state.total
    } else {
        reported
    };
    StreamStep::Receive { append: state.resume, expected }
}

/// The state after what was at hand has been deleted.
pub fn stream_restart(state: &StreamState) -> (r: StreamState)
    ensures
        r.total == state.total,
        r.existing == 0,
        !r.resume,
{
    StreamState { total: state.total, existing: 0, resume: false }
}

/// The message for a download that stopped early.
pub open spec fn incomplete_message(downloaded: int, expected: int) -> Seq<char> {
    "下载不完整："@ + decimal(downloaded) + " / "@ + decimal(expected)
        + " 字节（已保留断点，下次续传）"@
}

fn two_numbers(head: &str, a: u64, b: u64, tail: &str) -> (r: String)
    ensures
        r@ == head@ + decimal(a as int) + " / "@ + decimal(b as int) + tail@,
{
    let mut out = String::from_str(head);
    let da = digits_of(a);
    push_chars(&mut out, da.as_slice());
    out.append(" / ");
    let db = digits_of(b);
    push_chars(&mut out, db.as_slice());
    out.append(tail);
    out
}

/// Decides at the end of the body whether the file is complete. Only then it
/// gets its final name.
pub fn stream_finish(downloaded: u64, expected: u64) -> (r: Result<(), String>)
    ensures
        expected > 0 && downloaded != expected ==> fails_with(
            r,
            incomplete_message(
            downloaded as int,
            expected as int,
        ),
        ),
        expected == 0 || downloaded == expected ==> r is Ok,
{
    if expected > 0 && downloaded != expected {
        return Err(
            two_numbers("下载不完整：", downloaded, expected, " 字节（已保留断点，下次续传）"),
        );
    }
    Ok(())
}

/// `a / b` rounded up.
pub open spec fn ceil_div(a: int, b: int) -> int {
    (a + b - 1) / b
}

/// The length of all segments but the last.
pub open spec fn segment_size(total: int) -> int {
    ceil_div(total, 6)
}

/// How many segments there are.
pub open spec fn segment_count(total: int) -> int {
    ceil_div(total, segment_size(total))
}

/// The first and the last byte of segment `i`.
pub open spec fn segment_range(total: int, i: int) -> (int, int) {
    let end = (i + 1) * segment_size(total);
    (
        i * segment_size(total),
        if end < total {
            end - 1
        } else {
            total - 1
        },
    )
}

proof fn lemma_ceil_div(a: int, b: int)
    requires
        0 < a,
        0 < b,
    ensures
        ceil_div(a, b) >= 1,
        (ceil_div(a, b) - 1) * b < a <= ceil_div(a, b) * b,
{
    let q = ceil_div(a, b);
    vstd::arithmetic::div_mod::lemma_fundamental_div_mod(a + b - 1, b);
    vstd::arithmetic::div_mod::lemma_mod_bound(a + b - 1, b);
    let r = (a + b - 1) % b;
    assert(q * b == b * q) by (nonlinear_arith);
    assert((q - 1) * b == q * b - b) by (nonlinear_arith);
    assert(a + b - 1 == q * b + r);
    assert(q >= 1) by (nonlinear_arith)
        requires
            q * b >= a,
            a > 0,
            b > 0,
    ;
}

/// The segments follow one another without gap or overlap from the first to
/// the last byte of the file, and none is empty.
pub proof fn lemma_segments_partition(total: int)
    requires
        total > 0,
    ensures
        ({
            let n = segment_count(total);
            &&& 1 <= n <= 6
            &&& segment_range(total, 0).0 == 0
            &&& segment_range(total, n - 1).1 == total - 1
            &&& forall|i: int|
                0 <= i < n ==> (#[trigger] segment_range(total, i)).0 <= segment_range(total, i).1
            &&& forall|i: int|
                0 <= i < n - 1 ==> (#[trigger] segment_range(total, i)).1 + 1 == segment_range(
                    total,
                    i + 1,
                ).0
        }),
{
    let s = segment_size(total);
    let n = segment_count(total);
    lemma_ceil_div(total, 6);
    lemma_ceil_div(total, s);
    assert(n <= 6) by (nonlinear_arith)
        requires
            (n - 1) * s < total,
            total <= s * 6,
            s >= 1,
    ;
    assert(0 * s == 0) by (nonlinear_arith);
    assert(n * s >= total);
    assert((n - 1 + 1) * s == n * s);
    assert forall|i: int| 0 <= i < n implies (#[trigger] segment_range(total, i)).0
        <= segment_range(total, i).1 by {
        assert(i * s <= (n - 1) * s && (i + 1) * s == i * s + s) by (nonlinear_arith)
            requires
                i <= n - 1,
                s >= 1,
        ;
    }
    assert forall|i: int| 0 <= i < n - 1 implies (#[trigger] segment_range(total, i)).1 + 1
        == segment_range(total, i + 1).0 by {
        assert((i + 1) * s <= (n - 1) * s) by (nonlinear_arith)
            requires
                i + 1 <= n - 1,
                s >= 1,
        ;
    }
}

/// Splits a file into segments: for each the first and the last byte.
pub fn split_segments(total: u64) -> (r: Vec<(u64, u64)>)
    requires
        0 < total <= u64::MAX - 6,
    ensures
        r@.len() == segment_count(total as int),
        forall|i: int|
            0 <= i < r@.len() ==> ((#[trigger] r@[i]).0 as int, r@[i].1 as int) == segment_range(
                total as int,
                i,
            ),
{
    proof {
        lemma_segments_partition(total as int);
        lemma_ceil_div(total as int, 6);
        lemma_ceil_div(total as int, segment_size(total as int));
    }
    let size: u64 = (total + 5) / 6;
    proof {
        assert(size == segment_size(total as int));
        assert(size <= total);
    }
    let mut out: Vec<(u64, u64)> = Vec::new();
    let mut start: u64 = 0;
    let ghost n = segment_count(total as int);
    proof {
        assert(0 * size == 0) by (nonlinear_arith);
    }
    while start < total
        invariant
            0 < total <= u64::MAX - 6,
            size == segment_size(total as int),
            1 <= size <= total,
            n == segment_count(total as int),
            n >= 1,
            (n - 1) * size < total <= n * size,
            size * 6 <= total + 5,
            n <= 6,
            out@.len() <= n,
            start == out@.len() * size,
            forall|i: int|
                0 <= i < out@.len() ==> ((#[trigger] out@[i]).0 as int, out@[i].1 as int)
                    == segment_range(total as int, i),
        decreases n - out@.len(),
    {
        let ghost i = out@.len() as int;
        proof {
            assert(i < n) by (nonlinear_arith)
                requires
                    i * size < total,
                    total <= n * size,
                    size >= 1,
            ;
            assert((i + 1) * size == i * size + size) by (nonlinear_arith);
            assert((i + 1) * size <= 6 * size) by (nonlinear_arith)
                requires
                    i + 1 <= 6,
                    size >= 1,
            ;
        }
        let next: u64 = start + size;
        let end: u64 = if next < total {
            next - 1
        } else {
            total - 1
        };
        out.push((start, end));
        start = next;
    }
    proof {
        let k = out@.len() as int;
        assert(k >= n) by (nonlinear_arith)
            requires
                k * size >= total,
                (n - 1) * size < total,
                size >= 1,
        ;
    }
    out
}

/// The progress at the start: what the segments at hand hold, at most the
/// length of a segment each and the length of the file in all.
pub open spec fn seeded(lens: Seq<u64>, size: int, n: int) -> int
    decreases n,
{
    if n <= 0 {
        0
    } else {
        seeded(lens, size, n - 1) + if lens[n - 1] < size {
            lens[n - 1] as int
        } else {
            size
        }
    }
}

/// The progress from which a download in segments goes on.
pub fn seed_progress(lens: &[u64], total: u64) -> (r: u64)
    requires
        0 < total <= u64::MAX - 6,
        lens@.len() == segment_count(total as int),
    ensures
        r == if seeded(lens@, segment_size(total as int), lens@.len() as int) < total {
            seeded(lens@, segment_size(total as int), lens@.len() as int)
        } else {
            total as int
        },
{
    proof {
        lemma_segments_partition(total as int);
        lemma_ceil_div(total as int, 6);
    }
    let size: u64 = (total + 5) / 6;
    let n: usize = lens.len();
    let mut sum: u64 = 0;
    let mut i: usize = 0;
    while i < n
        invariant
            0 < total <= u64::MAX - 6,
            n == lens@.len(),
            n <= 6,
            size == segment_size(total as int),
            size * 6 <= total + 5,
            i <= n,
            sum == seeded(lens@, size as int, i as int),
            0 <= sum <= i * size,
        decreases n - i,
    {
        proof {
            assert((i + 1) * size == i * size + size) by (nonlinear_arith);
            assert((i + 1) * size <= 6 * size) by (nonlinear_arith)
                requires
                    i + 1 <= 6,
            ;
        }
        let len: u64 = if lens[i] < size {
            lens[i]
        } else {
            size
        };
        sum = sum + len;
        i = i + 1;
    }
    if sum < total {
        sum
    } else {
        total
    }
}

/// What is done to complete a segment.
#[derive(Clone, Copy, Debug, PartialEq, Eq, Structural)]
pub enum SegmentStep {
    /// It is complete.
    Done,
    /// The bytes from here to the end of the segment are asked for, and put
    /// behind what is at hand.
    Ask { from: u64 },
}

/// Decides what a segment needs, `existing` bytes of it being at hand.
pub fn segment_begin(start: u64, end: u64, existing: u64) -> (r: SegmentStep)
    requires
        start <= end < u64::MAX,
    ensures
        r == if existing >= end - start + 1 {
            SegmentStep::Done
        } else {
            SegmentStep::Ask { from: (start + existing) as u64 }
        },
        r matches SegmentStep::Ask { from } ==> start <= from <= end,
{
    if existing >= end - start + 1 {
        return SegmentStep::Done;
    }
    SegmentStep::Ask { from: start + existing }
}

/// The message for a server that does not send the part asked for.
pub open spec fn not_partial_message(status: int) -> Seq<char> {
    "服务器未返回 206 分段响应（status "@ + decimal(status) + "）"@
}

/// A segment is received only from a response that sends a part.
pub fn segment_response(status: u16) -> (r: Result<(), String>)
    ensures
        status == 206 ==> r is Ok,
        status != 206 ==> fails_with(r, not_partial_message(status as int)),
{
    if status != 206 {
        let mut out = String::from_str("服务器未返回 206 分段响应（status ");
        push_decimal(&mut out, status as i64);
        out.append("）");
        return Err(out);
    }
    Ok(())
}

/// The message for a segment that stopped early.
pub open spec fn short_segment_message(written: int, needed: int) -> Seq<char> {
    "分段不完整："@ + decimal(written) + " / "@ + decimal(needed) + " 字节"@
}

/// Decides whether a segment is complete.
pub fn segment_finish(start: u64, end: u64, written: u64) -> (r: Result<(), String>)
    requires
        start <= end < u64::MAX,
    ensures
        written >= end - start + 1 ==> r is Ok,
        written < end - start + 1 ==> fails_with(
            r,
            short_segment_message(
            written as int,
            end - start + 1,
        ),
        ),
{
    let needed: u64 = end - start + 1;
    if written < needed {
        return Err(two_numbers("分段不完整：", written, needed, " 字节"));
    }
    Ok(())
}

/// What follows a try to fetch a segment.
#[derive(Clone, Copy, Debug, PartialEq, Eq, Structural)]
pub enum RetryStep {
    /// It is fetched.
    Done,
    /// It is tried again after a pause.
    Again,
    /// It is given up, and so are the others.
    GiveUp,
}

/// Decides what follows try number `attempt`, counted from zero.
pub fn retry_step(attempt: u32, ok: bool) -> (r: RetryStep)
    ensures
        r == if ok {
            RetryStep::Done
        } else if attempt >= 2 {
            RetryStep::GiveUp
        } else {
            RetryStep::Again
        },
{
    if ok {
        RetryStep::Done
    } else if attempt >= SEGMENT_RETRIES - 1 {
        RetryStep::GiveUp
    } else {
        RetryStep::Again
    }
}

/// The message for segments that do not add up to the file.
pub open spec fn bad_merge_message(merged: int, total: int) -> Seq<char> {
    "合并后大小不符："@ + decimal(merged) + " / "@ + decimal(total) + " 字节"@
}

/// Decides whether the merged file is complete. Only then it gets its final
/// name.
pub fn merge_finish(merged: u64, total: u64) -> (r: Result<(), String>)
    ensures
        merged == total ==> r is Ok,
        merged != total ==> fails_with(
            r,
            bad_merge_message(
            merged as int,
            total as int,
        ),
        ),
{
    if merged != total {
        return Err(two_numbers("合并后大小不符：", merged, total, " 字节"));
    }
    Ok(())
}

/// The message for segments that failed.
pub open spec fn segments_failed_message(errors: Seq<Seq<char>>) -> Seq<char> {
    "分段下载失败（已保留断点，下次续传）："@ + joined(errors, "；"@)
}

/// The outcome of fetching all segments: an error where one failed.
pub fn segments_outcome(errors: &[String]) -> (r: Result<(), String>)
    ensures
        errors@.len() == 0 ==> r is Ok,
        errors@.len() > 0 ==> fails_with(r, segments_failed_message(texts(errors@))),
{
    if errors.len() > 0 {
        let list = join(errors, "；");
        return Err(String::from_str("分段下载失败（已保留断点，下次续传）：").concat(list.as_str()));
    }
    Ok(())
}

/// What went wrong with each source.
pub open spec fn source_errors(urls: Seq<Seq<char>>, errors: Seq<Seq<char>>) -> Seq<Seq<char>> {
    Seq::new(urls.len(), |i: int| urls[i] + ": "@ + errors[i])
}

/// The message for a download that failed from every source.
pub open spec fn all_failed_message(urls: Seq<Seq<char>>, errors: Seq<Seq<char>>) -> Seq<char> {
    "全部下载源均失败（已保留断点，可重试续传） → "@ + joined(
        source_errors(urls, errors),
        " | "@,
    )
}

/// The message for a download that failed from every source.
pub fn all_sources_failed(urls: &[String], errors: &[String]) -> (r: String)
    requires
        urls@.len() == errors@.len(),
    ensures
        r@ == all_failed_message(texts(urls@), texts(errors@)),
{
    let n: usize = urls.len();
    let mut lines: Vec<String> = Vec::new();
    let mut i: usize = 0;
    let ghost goal = source_errors(texts(urls@), texts(errors@));
    proof {
        assert(texts(lines@) =~= goal.take(0));
    }
    while i < n
        invariant
            n == urls@.len(),
            n == errors@.len(),
            i <= n,
            goal == source_errors(texts(urls@), texts(errors@)),
            texts(lines@) == goal.take(i as int),
        decreases n - i,
    {
        let line = urls[i].clone().concat(": ").concat(errors[i].as_str());
        proof {
            lemma_texts_push(lines@, line);
            assert(goal.take(i + 1) =~= goal.take(i as int).push(goal[i as int]));
        }
        lines.push(line);
        i = i + 1;
    }
    proof {
        assert(goal.take(n as int) =~= goal);
    }
    let list = join(lines.as_slice(), " | ");
    String::from_str("全部下载源均失败（已保留断点，可重试续传） → ").concat(list.as_str())
}

/// The share that is done, in percent, and in tenths.
pub fn milestone(done: u64, total: u64) -> (r: Option<(u64, u64)>)
    requires
        done <= u64::MAX / 100,
    ensures
        total == 0 ==> r is None,
        total > 0 ==> r == Some(((done * 100 / total as int) as u64, (done * 100 / total as int / 10) as u64)),
{
    if total == 0 {
        return None;
    }
    let percent: u64 = done * 100 / total;
    Some((percent, percent / 10))
}

} // verus!
