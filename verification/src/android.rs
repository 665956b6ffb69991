//! Names and types of pictures that come from or go to other programs of a
//! phone.

use crate::text::{
    chars_of, digits, digits_of, ends_with, has_tail, lemma_digits_round_trip, lowercase, pieces,
    push_chars, same, slice_of, split, text_of, texts, to_lowercase, trim, trimmed, views,
};
use vstd::prelude::*;

verus! {

/// The media type for a lower-case name.
pub open spec fn media_type(lower: Seq<char>) -> Seq<char> {
    if has_tail(lower, ".png"@) {
        "image/png"@
    } else if has_tail(lower, ".jpg"@) || has_tail(lower, ".jpeg"@) {
        "image/jpeg"@
    } else if has_tail(lower, ".webp"@) {
        "image/webp"@
    } else {
        "image/*"@
    }
}

/// The media type for a lower-case name.
pub fn mime_of_lower(lower: &str) -> (r: &'static str)
    ensures
        r@ == media_type(lower@),
{
    let s = chars_of(lower);
    if ends_with(s.as_slice(), chars_of(".png").as_slice()) {
        "image/png"
    } else if ends_with(s.as_slice(), chars_of(".jpg").as_slice()) || ends_with(
        s.as_slice(),
        chars_of(".jpeg").as_slice(),
    ) {
        "image/jpeg"
    } else if ends_with(s.as_slice(), chars_of(".webp").as_slice()) {
        "image/webp"
    } else {
        "image/*"
    }
}

/// The media type of a picture by its name, in upper or lower case.
pub fn mime_of(name: &str) -> (r: &'static str)
    ensures
        r@ == media_type(lowercase(name@)),
{
    let lower = to_lowercase(name);
    mime_of_lower(lower.as_str())
}

/// The last of the first `n` parts of a path that is neither empty nor a dot.
pub open spec fn last_part(parts: Seq<Seq<char>>, n: int) -> Option<Seq<char>>
    decreases n,
{
    if n <= 0 {
        None
    } else if parts[n - 1].len() > 0 && parts[n - 1] != "."@ {
        Some(parts[n - 1])
    } else {
        last_part(parts, n - 1)
    }
}

/// The file name at the end of a path with slashes; `image.png` where it has
/// none.
pub open spec fn file_name(path: Seq<char>) -> Seq<char> {
    let parts = pieces(path, '/');
    match last_part(parts, parts.len() as int) {
        Some(part) => if part == ".."@ {
            "image.png"@
        } else {
            part
        },
        None => "image.png"@,
    }
}

/// The file name at the end of a path with slashes.
pub fn basename(path: &str) -> (r: String)
    ensures
        r@ == file_name(path@),
{
    let s = chars_of(path);
    let parts = split(s.as_slice(), '/');
    let dot = chars_of(".");
    let up = chars_of("..");
    let mut i: usize = parts.len();
    let ghost all = views(parts@);
    while i > 0
        invariant
            i <= parts@.len(),
            all == views(parts@),
            all == pieces(path@, '/'),
            dot@ == "."@,
            up@ == ".."@,
            last_part(all, i as int) == last_part(all, all.len() as int),
        decreases i,
    {
        let part: &Vec<char> = &parts[i - 1];
        if part.len() > 0 && !same(part.as_slice(), dot.as_slice()) {
            if same(part.as_slice(), up.as_slice()) {
                return String::from_str("image.png");
            }
            return text_of(part.as_slice());
        }
        i = i - 1;
    }
    String::from_str("image.png")
}

/// The media type for several lower-case names: theirs if it is the same for
/// all.
pub open spec fn shared_type(lowers: Seq<Seq<char>>) -> Seq<char> {
    if forall|i: int|
        0 <= i < lowers.len() ==> media_type(#[trigger] lowers[i]) == media_type(lowers[0]) {
        media_type(lowers[0])
    } else {
        "image/*"@
    }
}

/// The media type under which several pictures are shared, by their names in
/// lower case.
pub fn share_mime(lowers: &[String]) -> (r: &'static str)
    requires
        lowers@.len() > 0,
    ensures
        r@ == shared_type(texts(lowers@)),
{
    let first = mime_of_lower(lowers[0].as_str());
    let want = chars_of(first);
    let n: usize = lowers.len();
    let mut i: usize = 0;
    let ghost all = texts(lowers@);
    while i < n
        invariant
            n == lowers@.len(),
            n > 0,
            i <= n,
            all == texts(lowers@),
            want@ == media_type(all[0]),
            forall|k: int| 0 <= k < i ==> media_type(#[trigger] all[k]) == media_type(all[0]),
        decreases n - i,
    {
        let here = chars_of(mime_of_lower(lowers[i].as_str()));
        if !same(here.as_slice(), want.as_slice()) {
            proof {
                assert(media_type(all[i as int]) != media_type(all[0]));
            }
            return "image/*";
        }
        i = i + 1;
    }
    first
}

/// A name without the `.png` endings.
pub open spec fn bare(name: Seq<char>) -> Seq<char>
    decreases name.len(),
{
    if has_tail(name, ".png"@) && ".png"@.len() > 0 {
        bare(name.take(name.len() - ".png"@.len()))
    } else {
        name
    }
}

/// The `k`-th name that is tried: the name itself, then with a number before
/// the ending.
pub open spec fn candidate(name: Seq<char>, k: int) -> Seq<char> {
    if k <= 0 {
        name
    } else {
        bare(name) + "-"@ + digits(k) + ".png"@
    }
}

fn strip_png(name: &[char]) -> (r: Vec<char>)
    ensures
        r@ == bare(name@),
{
    let tail = chars_of(".png");
    let mut end: usize = name.len();
    proof {
        reveal_strlit(".png");
        assert(name@.take(end as int) =~= name@);
    }
    loop
        invariant
            end <= name@.len(),
            tail@ == ".png"@,
            tail@.len() == 4,
            bare(name@.take(end as int)) == bare(name@),
        decreases end,
    {
        let head = slice_of(name, 0, end);
        proof {
            assert(head@ =~= name@.take(end as int));
        }
        if !ends_with(head.as_slice(), tail.as_slice()) {
            return head;
        }
        proof {
            assert(head@.take(head@.len() - 4) =~= name@.take(end - 4));
        }
        end = end - 4;
    }
}

proof fn lemma_digits_distinct(a: int, b: int)
    requires
        0 <= a,
        0 <= b,
        digits(a) == digits(b),
    ensures
        a == b,
{
    lemma_digits_round_trip(a);
    lemma_digits_round_trip(b);
}

proof fn lemma_bare_shorter(name: Seq<char>)
    ensures
        bare(name).len() <= name.len(),
        bare(name) == name.take(bare(name).len() as int),
        bare(name).len() < name.len() ==> name[bare(name).len() as int] == '.',
    decreases name.len(),
{
    reveal_strlit(".png");
    if has_tail(name, ".png"@) {
        let head = name.take(name.len() - 4);
        lemma_bare_shorter(head);
        let n = bare(name).len() as int;
        assert(bare(name) == bare(head));
        assert(head.take(n) =~= name.take(n));
        if n < head.len() {
            assert(head[n] == name[n]);
        } else {
            assert(name.skip(name.len() - 4)[0] == '.');
        }
    } else {
        assert(name.take(name.len() as int) =~= name);
    }
}

/// The names that are tried are all different.
proof fn lemma_candidates_distinct(name: Seq<char>, a: int, b: int)
    requires
        0 <= a < b,
    ensures
        candidate(name, a) != candidate(name, b),
{
    reveal_strlit("-");
    reveal_strlit(".png");
    let head = bare(name);
    let n = head.len() as int;
    lemma_bare_shorter(name);
    lemma_digits_round_trip(b);
    let cb = candidate(name, b);
    assert(cb[n] == '-');
    if a == 0 {
        if name == cb {
            assert(name.len() > n);
            assert(name[n] == '.');
        }
    } else {
        lemma_digits_round_trip(a);
        let ca = candidate(name, a);
        if ca == cb {
            assert(ca.len() == n + 5 + digits(a).len());
            assert(cb.len() == n + 5 + digits(b).len());
            let m = digits(a).len() as int;
            assert(ca.subrange(n + 1, n + 1 + m) =~= digits(a));
            assert(cb.subrange(n + 1, n + 1 + m) =~= digits(b));
            lemma_digits_distinct(a, b);
        }
    }
}

/// Of more names to try than there are entries, one is not among the entries.
proof fn lemma_one_is_free(name: Seq<char>, existing: Seq<Seq<char>>)
    ensures
        exists|k: int|
            0 <= k <= existing.len() && !existing.contains(#[trigger] candidate(name, k)),
{
    if forall|k: int|
        0 <= k <= existing.len() ==> existing.contains(#[trigger] candidate(name, k)) {
        let tried = Seq::new((existing.len() + 1) as nat, |k: int| candidate(name, k));
        assert(tried.no_duplicates()) by {
            assert forall|i: int, j: int|
                0 <= i < tried.len() && 0 <= j < tried.len() && i != j implies tried[i]
                != tried[j] by {
                if i < j {
                    lemma_candidates_distinct(name, i, j);
                } else {
                    lemma_candidates_distinct(name, j, i);
                }
            }
        }
        tried.unique_seq_to_set();
        existing.lemma_cardinality_of_set();
        assert(tried.to_set().subset_of(existing.to_set())) by {
            assert forall|c: Seq<char>|
                tried.to_set().contains(c) implies existing.to_set().contains(c) by {
                let k = choose|k: int| 0 <= k < tried.len() && tried[k] == c;
                assert(existing.contains(candidate(name, k)));
            }
        }
        vstd::set_lib::lemma_len_subset(tried.to_set(), existing.to_set());
    }
}

fn is_among(name: &[char], existing: &[String]) -> (r: bool)
    ensures
        r == texts(existing@).contains(name@),
{
    let n: usize = existing.len();
    let mut i: usize = 0;
    let ghost all = texts(existing@);
    while i < n
        invariant
            n == existing@.len(),
            i <= n,
            all == texts(existing@),
            forall|k: int| 0 <= k < i ==> all[k] != name@,
        decreases n - i,
    {
        let e = chars_of(existing[i].as_str());
        if same(e.as_slice(), name) {
            proof {
                assert(all[i as int] == name@);
            }
            return true;
        }
        i = i + 1;
    }
    false
}

/// A name that no file has yet: the name itself, else the first with a number
/// before its ending.
pub fn dedupe(name: &str, existing: &[String]) -> (r: String)
    ensures
        !texts(existing@).contains(r@),
        exists|k: int|
            {
                &&& 0 <= k <= existing@.len()
                &&& r@ == #[trigger] candidate(name@, k)
                &&& forall|j: int|
                    0 <= j < k ==> texts(existing@).contains(#[trigger] candidate(name@, j))
            },
{
    let s = chars_of(name);
    let stem = strip_png(s.as_slice());
    let ghost all = texts(existing@);
    let mut cur: Vec<char> = chars_of(name);
    let mut k: usize = 0;
    let len: usize = existing.len();
    while is_among(cur.as_slice(), existing)
        invariant
            len == existing@.len(),
            all == texts(existing@),
            stem@ == bare(name@),
            k <= len,
            cur@ == candidate(name@, k as int),
            forall|j: int| 0 <= j < k ==> all.contains(#[trigger] candidate(name@, j)),
        decreases len - k,
    {
        proof {
            assert forall|j: int| 0 <= j <= k implies all.contains(
                #[trigger] candidate(name@, j),
            ) by {}
            lemma_one_is_free(name@, all);
            let free = choose|j: int|
                0 <= j <= all.len() && !all.contains(#[trigger] candidate(name@, j));
            assert(free > k);
        }
        k = k + 1;
        let mut next = String::new();
        push_chars(&mut next, stem.as_slice());
        next.append("-");
        let ds = digits_of(k as u64);
        push_chars(&mut next, ds.as_slice());
        next.append(".png");
        proof {
            assert(next@ =~= candidate(name@, k as int));
        }
        cur = chars_of(next.as_str());
    }
    text_of(cur.as_slice())
}

/// The name under which a picture is brought in: the one that it shows, else a
/// numbered one, with a `.png` ending.
pub open spec fn wanted_name(shown: Option<Seq<char>>, index: int) -> Seq<char> {
    match shown {
        Some(v) => if trimmed(v).len() > 0 {
            v
        } else {
            "image-"@ + digits(index) + ".png"@
        },
        None => "image-"@ + digits(index) + ".png"@,
    }
}

/// The name of a picture that is brought in, before its ending is looked at.
pub fn import_name(shown: &Option<String>, index: usize) -> (r: String)
    ensures
        r@ == wanted_name(
            match *shown {
                Some(v) => Some(v@),
                None => None,
            },
            index as int,
        ),
{
    if let Some(v) = shown {
        let s = chars_of(v.as_str());
        if trim(s.as_slice()).len() > 0 {
            return v.clone();
        }
    }
    let mut out = String::from_str("image-");
    let ds = digits_of(index as u64);
    push_chars(&mut out, ds.as_slice());
    out.append(".png");
    out
}

/// A name with a `.png` ending, given its lower-case form.
pub fn with_png(name: String, lower: &str) -> (r: String)
    ensures
        r@ == if has_tail(lower@, ".png"@) {
            name@
        } else {
            name@ + ".png"@
        },
{
    let s = chars_of(lower);
    if ends_with(s.as_slice(), chars_of(".png").as_slice()) {
        name
    } else {
        name.concat(".png")
    }
}

/// The largest picture that is brought in.
pub const MAX_SIZE: usize = 209_715_200;

/// The size after one more read of `n` bytes; an error once it is too large.
pub fn import_grow(total: usize, n: usize) -> (r: Result<usize, String>)
    requires
        total <= MAX_SIZE,
        n <= 0x1_0000,
    ensures
        total + n <= MAX_SIZE ==> (r matches Ok(v) && v == total + n),
        total + n > MAX_SIZE ==> crate::text::fails_with(r, "图片过大，无法导入"@),
{
    let sum: usize = total + n;
    if sum > MAX_SIZE {
        return Err(String::from_str("图片过大，无法导入"));
    }
    Ok(sum)
}

/// An empty picture is not brought in.
pub fn import_finish(total: usize) -> (r: Result<(), String>)
    ensures
        total > 0 ==> r is Ok,
        total == 0 ==> crate::text::fails_with(r, "相册文件内容为空"@),
{
    if total == 0 {
        return Err(String::from_str("相册文件内容为空"));
    }
    Ok(())
}

} // verus!
