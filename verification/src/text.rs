//! Small operations on text, stated over sequences of characters.

use vstd::prelude::*;
use vstd::std_specs::iter::IteratorSpec;

verus! {

/// `String::push` appends one character.
pub assume_specification[ String::push ](s: &mut String, c: char)
    ensures
        final(s)@ == old(s)@.push(c),
;

/// The characters of a text.
pub fn chars_of(s: &str) -> (r: Vec<char>)
    ensures
        r@ == s@,
{
    let mut out: Vec<char> = Vec::new();
    let mut it = s.chars();
    loop
        invariant
            it.obeys_prophetic_iter_laws(),
            it.decrease() is Some,
            out@ + it.remaining() == s@,
        ensures
            out@ == s@,
        decreases it.decrease()->0,
    {
        let ghost before = it.remaining();
        match it.next() {
            Some(c) => {
                out.push(c);
                proof {
                    assert(out@ + it.remaining() =~= s@);
                }
            },
            None => {
                proof {
                    assert(out@ =~= s@);
                }
                break ;
            },
        }
    }
    out
}

/// The text made of some characters.
pub fn text_of(chars: &[char]) -> (r: String)
    ensures
        r@ == chars@,
{
    let mut out = String::new();
    let mut i: usize = 0;
    while i < chars.len()
        invariant
            i <= chars@.len(),
            out@ == chars@.take(i as int),
        decreases chars@.len() - i,
    {
        out.push(chars[i]);
        i = i + 1;
        proof {
            assert(chars@.take(i as int) =~= chars@.take(i - 1).push(chars@[i - 1]));
        }
    }
    proof {
        assert(chars@.take(i as int) =~= chars@);
    }
    out
}

/// A letter in lower case, if it is one of the English ones.
pub open spec fn ascii_lower(c: char) -> char {
    if 65 <= c as u32 <= 90 {
        ((c as u32 + 32) as u8) as char
    } else {
        c
    }
}

/// A text with its English letters in lower case.
pub open spec fn ascii_lowered(s: Seq<char>) -> Seq<char> {
    Seq::new(s.len(), |i: int| ascii_lower(s[i]))
}

/// Brings the English letters of a text into lower case.
pub fn lower_ascii(s: &[char]) -> (r: Vec<char>)
    ensures
        r@ == ascii_lowered(s@),
{
    let n: usize = s.len();
    let mut out: Vec<char> = Vec::new();
    let mut i: usize = 0;
    while i < n
        invariant
            n == s@.len(),
            i <= n,
            out@ == ascii_lowered(s@).take(i as int),
        decreases n - i,
    {
        let c: char = s[i];
        let v: u32 = c as u32;
        let d: char = if 65 <= v && v <= 90 {
            ((v + 32) as u8) as char
        } else {
            c
        };
        out.push(d);
        i = i + 1;
        proof {
            assert(out@ =~= ascii_lowered(s@).take(i as int));
        }
    }
    proof {
        assert(out@ =~= ascii_lowered(s@));
    }
    out
}

/// Every character is ASCII.
pub open spec fn all_ascii(s: Seq<char>) -> bool {
    forall|i: int| 0 <= i < s.len() ==> (#[trigger] s[i] as u32) < 128
}

/// Unicode lower case of a text that is not all ASCII, as `str::to_lowercase`
/// gives it.
pub uninterp spec fn unicode_lowercase(s: Seq<char>) -> Seq<char>;

/// A text in lower case.
pub open spec fn lowercase(s: Seq<char>) -> Seq<char> {
    if all_ascii(s) {
        ascii_lowered(s)
    } else {
        unicode_lowercase(s)
    }
}

/// `str::to_lowercase`: the lower-case equivalent of a text, a function of the
/// text alone; of ASCII text only the English letters change.
#[verifier::external_body]
pub(crate) fn to_lowercase(s: &str) -> (r: String)
    ensures
        r@ == (if all_ascii(s@) {
            ascii_lowered(s@)
        } else {
            unicode_lowercase(s@)
        }),
{
    s.to_lowercase()
}

pub open spec fn is_digit(c: char) -> bool {
    48 <= c as u32 <= 57
}

pub open spec fn all_digits(s: Seq<char>) -> bool {
    forall|i: int| 0 <= i < s.len() ==> is_digit(#[trigger] s[i])
}

/// The number that decimal digits write.
pub open spec fn digits_value(s: Seq<char>) -> int
    decreases s.len(),
{
    if s.len() == 0 {
        0
    } else {
        digits_value(s.drop_last()) * 10 + (s.last() as u32 - 48)
    }
}

/// The decimal digits of a number.
pub open spec fn digits(n: int) -> Seq<char>
    decreases n,
{
    if n < 10 {
        seq![((48 + n) as u8) as char]
    } else {
        digits(n / 10).push(((48 + n % 10) as u8) as char)
    }
}

/// A number in decimal, with a minus sign where it is negative.
pub open spec fn decimal(n: int) -> Seq<char> {
    if n < 0 {
        seq!['-'] + digits(-n)
    } else {
        digits(n)
    }
}

/// A text without its plus sign.
pub open spec fn without_plus(s: Seq<char>) -> Seq<char> {
    if s.len() > 0 && s[0] == '+' {
        s.skip(1)
    } else {
        s
    }
}

/// The unsigned 64-bit number that a text writes: digits, after an optional
/// plus sign.
pub open spec fn unsigned(s: Seq<char>) -> Option<u64> {
    let body = without_plus(s);
    if body.len() > 0 && all_digits(body) && digits_value(body) <= u64::MAX {
        Some(digits_value(body) as u64)
    } else {
        None
    }
}

/// The signed 64-bit number that a text writes: digits, after an optional
/// sign.
pub open spec fn signed(s: Seq<char>) -> Option<i64> {
    let neg = s.len() > 0 && s[0] == '-';
    let body = if neg {
        s.skip(1)
    } else {
        without_plus(s)
    };
    let v = digits_value(body);
    let limit: int = if neg {
        0x8000_0000_0000_0000
    } else {
        0x7fff_ffff_ffff_ffff
    };
    let number = if neg {
        -v
    } else {
        v
    };
    if body.len() > 0 && all_digits(body) && v <= limit {
        Some(number as i64)
    } else {
        None
    }
}

proof fn lemma_digits_value_grows(s: Seq<char>, i: int)
    requires
        0 <= i <= s.len(),
        all_digits(s),
    ensures
        0 <= digits_value(s.take(i)) <= digits_value(s),
    decreases s.len(),
{
    if s.len() == 0 {
        assert(s.take(i) =~= s);
    } else if i == s.len() {
        assert(s.take(i) =~= s);
        assert(all_digits(s.drop_last()));
        lemma_digits_value_grows(s.drop_last(), i - 1);
        assert(s.drop_last().take(i - 1) =~= s.drop_last());
        assert(is_digit(s[s.len() - 1]));
    } else {
        assert(all_digits(s.drop_last()));
        lemma_digits_value_grows(s.drop_last(), i);
        assert(s.drop_last().take(i) =~= s.take(i));
        assert(is_digit(s[s.len() - 1]));
    }
}

/// The value of the digits from `from` on; `None` where there is none, where
/// another character stands among them, or where it exceeds 64 bits.
fn read_digits(s: &[char], from: usize) -> (r: Option<u64>)
    requires
        from <= s@.len(),
    ensures
        ({
            let body = s@.skip(from as int);
            r == if body.len() > 0 && all_digits(body) && digits_value(body) <= u64::MAX {
                Some(digits_value(body) as u64)
            } else {
                None
            }
        }),
        r matches Some(v) ==> v == digits_value(s@.skip(from as int)),
{
    let ghost body = s@.skip(from as int);
    let n: usize = s.len();
    if from == n {
        return None;
    }
    let mut i: usize = from;
    let mut v: u64 = 0;
    while i < n
        invariant
            n == s@.len(),
            from <= i <= n,
            body == s@.skip(from as int),
            all_digits(body.take(i - from)),
            v == digits_value(body.take(i - from)),
        decreases n - i,
    {
        let c: u32 = s[i] as u32;
        let ghost j = i - from;
        proof {
            assert(body[j] == s@[i as int]);
            assert(body.take(j + 1).drop_last() =~= body.take(j));
            assert(body.take(j + 1).last() == s@[i as int]);
        }
        if c < 48 || c > 57 {
            proof {
                assert(!is_digit(body[j]));
            }
            return None;
        }
        let d: u64 = (c - 48) as u64;
        if v > (u64::MAX - d) / 10 {
            proof {
                assert(v * 10 + d > u64::MAX);
                if all_digits(body) {
                    lemma_digits_value_grows(body, j + 1);
                }
            }
            return None;
        }
        v = v * 10 + d;
        i = i + 1;
        proof {
            assert(all_digits(body.take(j + 1))) by {
                assert forall|k: int| 0 <= k < j + 1 implies is_digit(
                    #[trigger] body.take(j + 1)[k],
                ) by {
                    if k < j {
                        assert(body.take(j)[k] == body.take(j + 1)[k]);
                    }
                }
            }
        }
    }
    proof {
        assert(body.take(n - from) =~= body);
    }
    Some(v)
}

/// Reads an unsigned number.
pub fn parse_unsigned(s: &[char]) -> (r: Option<u64>)
    ensures
        r == unsigned(s@),
{
    if s.len() > 0 && s[0] == '+' {
        read_digits(s, 1)
    } else {
        proof {
            assert(s@.skip(0) =~= s@);
        }
        read_digits(s, 0)
    }
}

/// Reads a signed number.
pub fn parse_signed(s: &[char]) -> (r: Option<i64>)
    ensures
        r == signed(s@),
{
    let neg: bool = s.len() > 0 && s[0] == '-';
    let from: usize = if s.len() > 0 && (s[0] == '-' || s[0] == '+') {
        1
    } else {
        0
    };
    proof {
        assert(s@.skip(0) =~= s@);
    }
    match read_digits(s, from) {
        None => None,
        Some(v) => {
            if neg {
                if v <= 0x7fff_ffff_ffff_ffff {
                    Some(-(v as i64))
                } else if v == 0x8000_0000_0000_0000 {
                    Some(i64::MIN)
                } else {
                    None
                }
            } else {
                if v <= 0x7fff_ffff_ffff_ffff {
                    Some(v as i64)
                } else {
                    None
                }
            }
        },
    }
}

/// The decimal digits of a number.
pub fn digits_of(n: u64) -> (r: Vec<char>)
    ensures
        r@ == digits(n as int),
    decreases n,
{
    if n < 10 {
        let d: u8 = 48 + n as u8;
        let out: Vec<char> = vec![d as char];
        proof {
            assert(out@ =~= digits(n as int));
        }
        out
    } else {
        let mut out = digits_of(n / 10);
        let d: u8 = 48 + (n % 10) as u8;
        out.push(d as char);
        out
    }
}

/// Appends a number in decimal.
pub fn push_decimal(s: &mut String, n: i64)
    ensures
        final(s)@ == old(s)@ + decimal(n as int),
{
    let ghost start = s@;
    let v: u64 = if n < 0 {
        s.push('-');
        if n == i64::MIN {
            0x8000_0000_0000_0000
        } else {
            (-n) as u64
        }
    } else {
        n as u64
    };
    let ghost mid = s@;
    let ds = digits_of(v);
    push_chars(s, ds.as_slice());
    proof {
        assert(s@ =~= start + decimal(n as int));
    }
}

/// Appends some characters.
pub fn push_chars(s: &mut String, chars: &[char])
    ensures
        final(s)@ == old(s)@ + chars@,
{
    let ghost start = s@;
    let n: usize = chars.len();
    let mut i: usize = 0;
    proof {
        assert(start + chars@.take(0) =~= start);
    }
    while i < n
        invariant
            n == chars@.len(),
            i <= n,
            s@ == start + chars@.take(i as int),
        decreases n - i,
    {
        s.push(chars[i]);
        i = i + 1;
        proof {
            assert(s@ =~= start + chars@.take(i as int));
        }
    }
    proof {
        assert(chars@.take(n as int) =~= chars@);
    }
}

/// Tells whether two runs of characters are equal.
pub fn same(a: &[char], b: &[char]) -> (r: bool)
    ensures
        r == (a@ == b@),
{
    if a.len() != b.len() {
        return false;
    }
    let n: usize = a.len();
    let mut i: usize = 0;
    while i < n
        invariant
            n == a@.len(),
            n == b@.len(),
            i <= n,
            forall|k: int| 0 <= k < i ==> a@[k] == b@[k],
        decreases n - i,
    {
        if a[i] != b[i] {
            return false;
        }
        i = i + 1;
    }
    proof {
        assert(a@ =~= b@);
    }
    true
}

/// `s` starts with `head`.
pub open spec fn has_head(s: Seq<char>, head: Seq<char>) -> bool {
    s.len() >= head.len() && s.take(head.len() as int) == head
}

/// `s` ends with `tail`.
pub open spec fn has_tail(s: Seq<char>, tail: Seq<char>) -> bool {
    s.len() >= tail.len() && s.skip(s.len() - tail.len()) == tail
}

pub fn starts_with(s: &[char], head: &[char]) -> (r: bool)
    ensures
        r == has_head(s@, head@),
{
    if s.len() < head.len() {
        return false;
    }
    let n: usize = head.len();
    let mut i: usize = 0;
    while i < n
        invariant
            n == head@.len(),
            n <= s@.len(),
            i <= n,
            forall|k: int| 0 <= k < i ==> s@[k] == head@[k],
        decreases n - i,
    {
        if s[i] != head[i] {
            proof {
                assert(s@.take(n as int)[i as int] != head@[i as int]);
            }
            return false;
        }
        i = i + 1;
    }
    proof {
        assert(s@.take(n as int) =~= head@);
    }
    true
}

pub fn ends_with(s: &[char], tail: &[char]) -> (r: bool)
    ensures
        r == has_tail(s@, tail@),
{
    if s.len() < tail.len() {
        return false;
    }
    let n: usize = tail.len();
    let total: usize = s.len();
    let from: usize = total - n;
    let mut i: usize = 0;
    while i < n
        invariant
            n == tail@.len(),
            from + n == total,
            total == s@.len(),
            i <= n,
            forall|k: int| 0 <= k < i ==> s@[from + k] == tail@[k],
        decreases n - i,
    {
        if s[from + i] != tail[i] {
            proof {
                assert(s@.skip(from as int)[i as int] != tail@[i as int]);
            }
            return false;
        }
        i = i + 1;
    }
    proof {
        assert(s@.skip(from as int) =~= tail@);
    }
    true
}

/// The characters from `from` up to `to`.
pub fn slice_of(s: &[char], from: usize, to: usize) -> (r: Vec<char>)
    requires
        from <= to <= s@.len(),
    ensures
        r@ == s@.subrange(from as int, to as int),
{
    let mut out: Vec<char> = Vec::new();
    let mut i: usize = from;
    while i < to
        invariant
            from <= i <= to <= s@.len(),
            out@ == s@.subrange(from as int, i as int),
        decreases to - i,
    {
        out.push(s[i]);
        i = i + 1;
        proof {
            assert(out@ =~= s@.subrange(from as int, i as int));
        }
    }
    out
}

/// The pieces of a text between separators.
pub open spec fn pieces(s: Seq<char>, sep: char) -> Seq<Seq<char>>
    decreases s.len(),
{
    if s.len() == 0 {
        seq![seq![]]
    } else {
        let rest = pieces(s.drop_last(), sep);
        if s.last() == sep {
            rest.push(seq![])
        } else {
            rest.drop_last().push(rest.last().push(s.last()))
        }
    }
}

/// The views of some runs of characters.
pub open spec fn views(v: Seq<Vec<char>>) -> Seq<Seq<char>> {
    Seq::new(v.len(), |i: int| v[i]@)
}

/// Splits a text at separators.
pub fn split(s: &[char], sep: char) -> (r: Vec<Vec<char>>)
    ensures
        views(r@) == pieces(s@, sep),
        r@.len() >= 1,
{
    let n: usize = s.len();
    let mut done: Vec<Vec<char>> = Vec::new();
    let mut cur: Vec<char> = Vec::new();
    let mut i: usize = 0;
    proof {
        assert(s@.take(0) =~= seq![]);
        assert(views(done@).push(cur@) =~= pieces(s@.take(0), sep));
    }
    while i < n
        invariant
            n == s@.len(),
            i <= n,
            views(done@).push(cur@) == pieces(s@.take(i as int), sep),
        decreases n - i,
    {
        let c: char = s[i];
        let ghost had = views(done@);
        let ghost part = cur@;
        proof {
            assert(s@.take(i + 1).drop_last() =~= s@.take(i as int));
            assert(s@.take(i + 1).last() == c);
        }
        if c == sep {
            done.push(cur);
            cur = Vec::new();
            proof {
                assert(views(done@) =~= had.push(part));
                assert(cur@ =~= seq![]);
            }
        } else {
            cur.push(c);
            proof {
                assert(had.push(part).drop_last() =~= had);
            }
        }
        i = i + 1;
    }
    let ghost had = views(done@);
    let ghost part = cur@;
    done.push(cur);
    proof {
        assert(s@.take(n as int) =~= s@);
        assert(views(done@) =~= had.push(part));
    }
    done
}

/// White space, in the sense of Unicode.
pub open spec fn is_space(c: char) -> bool {
    let v = c as u32;
    ||| 9 <= v <= 13
    ||| v == 32
    ||| v == 0x85
    ||| v == 0xa0
    ||| v == 0x1680
    ||| 0x2000 <= v <= 0x200a
    ||| v == 0x2028
    ||| v == 0x2029
    ||| v == 0x202f
    ||| v == 0x205f
    ||| v == 0x3000
}

fn space(c: char) -> (r: bool)
    ensures
        r == is_space(c),
{
    let v: u32 = c as u32;
    (9 <= v && v <= 13) || v == 32 || v == 0x85 || v == 0xa0 || v == 0x1680 || (0x2000 <= v && v
        <= 0x200a) || v == 0x2028 || v == 0x2029 || v == 0x202f || v == 0x205f || v == 0x3000
}

/// A text without the white space at its start.
pub open spec fn trimmed_left(s: Seq<char>) -> Seq<char>
    decreases s.len(),
{
    if s.len() > 0 && is_space(s[0]) {
        trimmed_left(s.skip(1))
    } else {
        s
    }
}

/// A text without the white space at its end.
pub open spec fn trimmed_right(s: Seq<char>) -> Seq<char>
    decreases s.len(),
{
    if s.len() > 0 && is_space(s.last()) {
        trimmed_right(s.drop_last())
    } else {
        s
    }
}

/// A text without the white space around it.
pub open spec fn trimmed(s: Seq<char>) -> Seq<char> {
    trimmed_right(trimmed_left(s))
}

/// What is left of a text was in it.
pub proof fn lemma_trimmed_within(s: Seq<char>)
    ensures
        forall|i: int| 0 <= i < trimmed(s).len() ==> s.contains(#[trigger] trimmed(s)[i]),
{
    let left = trimmed_left(s);
    lemma_trimmed_left_within(s);
    lemma_trimmed_right_within(left);
    assert forall|i: int| 0 <= i < trimmed(s).len() implies s.contains(#[trigger] trimmed(s)[i]) by {
        assert(left.contains(trimmed_right(left)[i]));
        let j = choose|j: int| 0 <= j < left.len() && left[j] == trimmed_right(left)[i];
        assert(s.contains(left[j]));
    }
}

proof fn lemma_trimmed_left_within(s: Seq<char>)
    ensures
        forall|i: int| 0 <= i < trimmed_left(s).len() ==> s.contains(#[trigger] trimmed_left(s)[i]),
    decreases s.len(),
{
    if s.len() > 0 && is_space(s[0]) {
        let rest = s.skip(1);
        lemma_trimmed_left_within(rest);
        assert forall|i: int| 0 <= i < trimmed_left(s).len() implies s.contains(
            #[trigger] trimmed_left(s)[i],
        ) by {
            assert(rest.contains(trimmed_left(rest)[i]));
            let j = choose|j: int| 0 <= j < rest.len() && rest[j] == trimmed_left(rest)[i];
            assert(s[j + 1] == rest[j]);
        }
    }
}

proof fn lemma_trimmed_right_within(s: Seq<char>)
    ensures
        forall|i: int|
            0 <= i < trimmed_right(s).len() ==> s.contains(#[trigger] trimmed_right(s)[i]),
    decreases s.len(),
{
    if s.len() > 0 && is_space(s.last()) {
        let rest = s.drop_last();
        lemma_trimmed_right_within(rest);
        assert forall|i: int| 0 <= i < trimmed_right(s).len() implies s.contains(
            #[trigger] trimmed_right(s)[i],
        ) by {
            assert(rest.contains(trimmed_right(rest)[i]));
            let j = choose|j: int| 0 <= j < rest.len() && rest[j] == trimmed_right(rest)[i];
            assert(s[j] == rest[j]);
        }
    }
}

pub fn trim(s: &[char]) -> (r: Vec<char>)
    ensures
        r@ == trimmed(s@),
{
    let n: usize = s.len();
    let mut from: usize = 0;
    proof {
        assert(s@.skip(0) =~= s@);
    }
    while from < n && space(s[from])
        invariant
            n == s@.len(),
            from <= n,
            trimmed_left(s@.skip(from as int)) == trimmed_left(s@),
        decreases n - from,
    {
        proof {
            assert(s@.skip(from as int)[0] == s@[from as int]);
            assert(s@.skip(from as int).skip(1) =~= s@.skip(from + 1));
        }
        from = from + 1;
    }
    let ghost left = s@.skip(from as int);
    proof {
        if from < n {
            assert(left[0] == s@[from as int]);
        }
        assert(left == trimmed_left(s@));
    }
    let mut to: usize = n;
    proof {
        assert(s@.subrange(from as int, n as int) =~= left);
    }
    while to > from && space(s[to - 1])
        invariant
            n == s@.len(),
            from <= to <= n,
            trimmed_right(s@.subrange(from as int, to as int)) == trimmed_right(left),
        decreases to,
    {
        proof {
            assert(s@.subrange(from as int, to as int).last() == s@[to - 1]);
            assert(s@.subrange(from as int, to as int).drop_last() =~= s@.subrange(
                from as int,
                to - 1,
            ));
        }
        to = to - 1;
    }
    proof {
        if to > from {
            assert(s@.subrange(from as int, to as int).last() == s@[to - 1]);
        }
    }
    slice_of(s, from, to)
}

/// Texts joined with a separator.
pub open spec fn joined(parts: Seq<Seq<char>>, sep: Seq<char>) -> Seq<char>
    decreases parts.len(),
{
    if parts.len() == 0 {
        seq![]
    } else if parts.len() == 1 {
        parts[0]
    } else {
        joined(parts.drop_last(), sep) + sep + parts.last()
    }
}

/// The views of some texts.
pub open spec fn texts(v: Seq<String>) -> Seq<Seq<char>> {
    Seq::new(v.len(), |i: int| v[i]@)
}

/// One more text is one more view.
pub proof fn lemma_texts_push(v: Seq<String>, s: String)
    ensures
        texts(v.push(s)) == texts(v).push(s@),
{
    assert(texts(v.push(s)) =~= texts(v).push(s@));
}

/// A result is an error with this message.
pub open spec fn fails_with<T>(r: Result<T, String>, message: Seq<char>) -> bool {
    match r {
        Ok(_) => false,
        Err(e) => e@ == message,
    }
}

/// Joins texts with a separator.
pub fn join(parts: &[String], sep: &str) -> (r: String)
    ensures
        r@ == joined(texts(parts@), sep@),
{
    let n: usize = parts.len();
    let mut out = String::new();
    let mut i: usize = 0;
    proof {
        assert(texts(parts@).take(0) =~= seq![]);
    }
    while i < n
        invariant
            n == parts@.len(),
            i <= n,
            out@ == joined(texts(parts@).take(i as int), sep@),
        decreases n - i,
    {
        let ghost all = texts(parts@);
        proof {
            assert(all.take(i + 1).drop_last() =~= all.take(i as int));
            assert(all.take(i + 1).last() == parts@[i as int]@);
        }
        if i > 0 {
            out.append(sep);
        }
        out.append(parts[i].as_str());
        proof {
            if i == 0 {
                assert(out@ =~= all.take(1)[0]);
            }
        }
        i = i + 1;
    }
    proof {
        assert(texts(parts@).take(n as int) =~= texts(parts@));
    }
    out
}

/// The digits of a number write that number.
pub proof fn lemma_digits_round_trip(n: int)
    requires
        0 <= n,
    ensures
        all_digits(digits(n)),
        digits(n).len() > 0,
        digits_value(digits(n)) == n,
    decreases n,
{
    let d = digits(n);
    if n < 10 {
        assert(d.drop_last() =~= seq![]);
        assert(d.last() == ((48 + n) as u8) as char);
        assert(d.last() as u32 == 48 + n);
        assert(digits_value(d.drop_last()) == 0);
        assert(all_digits(d));
    } else {
        lemma_digits_round_trip(n / 10);
        let rest = digits(n / 10);
        assert(d.drop_last() =~= rest);
        assert(d.last() as u32 == 48 + n % 10);
        assert(all_digits(d)) by {
            assert forall|i: int| 0 <= i < d.len() implies is_digit(#[trigger] d[i]) by {
                if i < rest.len() {
                    assert(d[i] == rest[i]);
                }
            }
        }
    }
}

/// A number in decimal reads back as that number.
pub proof fn lemma_decimal_round_trip(n: i64)
    ensures
        signed(decimal(n as int)) == Some(n),
        trimmed(decimal(n as int)) == decimal(n as int),
        forall|i: int|
            0 <= i < decimal(n as int).len() ==> #[trigger] decimal(n as int)[i] == '-' || is_digit(
                decimal(n as int)[i],
            ),
{
    let m: int = if n < 0 {
        -n
    } else {
        n as int
    };
    lemma_digits_round_trip(m);
    let s = decimal(n as int);
    let d = digits(m);
    if n < 0 {
        assert(s.skip(1) =~= d);
        assert(s[0] == '-');
        assert forall|i: int| 0 <= i < s.len() implies #[trigger] s[i] == '-' || is_digit(s[i]) by {
            if i > 0 {
                assert(s[i] == d[i - 1]);
            }
        }
    } else {
        assert(is_digit(s[0]));
        assert(without_plus(s) == s);
    }
    assert(!is_space(s[0]));
    assert(s.last() == d.last());
    assert(is_digit(d[d.len() - 1]));
    assert(!is_space(s.last()));
    assert(trimmed_left(s) == s);
    assert(trimmed_right(s) == s);
}

/// Splitting at a separator is splitting before it and after it.
pub proof fn lemma_pieces_around(a: Seq<char>, b: Seq<char>, sep: char)
    ensures
        pieces(a + seq![sep] + b, sep) == pieces(a, sep) + pieces(b, sep),
        pieces(b, sep).len() > 0,
    decreases b.len(),
{
    let s = a + seq![sep] + b;
    if b.len() == 0 {
        assert(s.drop_last() =~= a);
        assert(s.last() == sep);
        assert(pieces(s, sep) =~= pieces(a, sep) + pieces(b, sep));
    } else {
        let init = b.drop_last();
        lemma_pieces_around(a, init, sep);
        assert(s.drop_last() =~= a + seq![sep] + init);
        assert(s.last() == b.last());
        let (pa, pi) = (pieces(a, sep), pieces(init, sep));
        if b.last() == sep {
            assert((pa + pi).push(seq![]) =~= pa + pi.push(seq![]));
        } else {
            assert((pa + pi).drop_last() =~= pa + pi.drop_last());
            assert((pa + pi).last() == pi.last());
            assert(pieces(s, sep) =~= pa + pieces(b, sep));
        }
    }
}

/// A text without the separator is one piece.
pub proof fn lemma_one_piece(a: Seq<char>, sep: char)
    requires
        forall|i: int| 0 <= i < a.len() ==> #[trigger] a[i] != sep,
    ensures
        pieces(a, sep) == seq![a],
    decreases a.len(),
{
    if a.len() > 0 {
        let init = a.drop_last();
        assert forall|i: int| 0 <= i < init.len() implies #[trigger] init[i] != sep by {
            assert(init[i] == a[i]);
        }
        lemma_one_piece(init, sep);
        assert(a.last() == a[a.len() - 1]);
        assert(seq![init].drop_last() =~= seq![]);
        assert(seq![init].last() == init);
        assert(init.push(a.last()) =~= a);
        assert(pieces(a, sep) =~= seq![a]);
    } else {
        assert(a =~= seq![]);
    }
}

/// Texts without the separator that are joined with it split into the same
/// texts.
pub proof fn lemma_joined_pieces(parts: Seq<Seq<char>>, sep: char)
    requires
        parts.len() > 0,
        forall|k: int, i: int|
            0 <= k < parts.len() && 0 <= i < parts[k].len() ==> #[trigger] parts[k][i] != sep,
    ensures
        pieces(joined(parts, seq![sep]), sep) == parts,
    decreases parts.len(),
{
    let last = parts.last();
    assert(last == parts[parts.len() - 1]);
    assert forall|i: int| 0 <= i < last.len() implies #[trigger] last[i] != sep by {
        assert(parts[parts.len() - 1][i] != sep);
    }
    lemma_one_piece(last, sep);
    if parts.len() == 1 {
        assert(parts =~= seq![last]);
    } else {
        let init = parts.drop_last();
        assert forall|k: int, i: int|
            0 <= k < init.len() && 0 <= i < init[k].len() implies #[trigger] init[k][i] != sep by {
            assert(parts[k][i] != sep);
        }
        lemma_joined_pieces(init, sep);
        lemma_pieces_around(joined(init, seq![sep]), last, sep);
        assert(init + seq![last] =~= parts);
    }
}

} // verus!
