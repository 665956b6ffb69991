//! File names: which are pictures, of which format, and in which order they
//! are worked on.

use crate::text::{
    chars_of, ends_with, has_tail, lemma_texts_push, lowercase, parse_unsigned, slice_of, text_of,
    texts, to_lowercase, unsigned,
};
use vstd::prelude::*;

verus! {

/// A lower-case name has one of the picture extensions.
pub open spec fn supported(lower: Seq<char>) -> bool {
    ||| has_tail(lower, ".png"@)
    ||| has_tail(lower, ".jpg"@)
    ||| has_tail(lower, ".jpeg"@)
    ||| has_tail(lower, ".webp"@)
}

/// Tells whether a lower-case name has one of the picture extensions.
pub fn has_picture_extension(lower: &str) -> (r: bool)
    ensures
        r == supported(lower@),
{
    let s = chars_of(lower);
    ends_with(s.as_slice(), chars_of(".png").as_slice()) || ends_with(
        s.as_slice(),
        chars_of(".jpg").as_slice(),
    ) || ends_with(s.as_slice(), chars_of(".jpeg").as_slice()) || ends_with(
        s.as_slice(),
        chars_of(".webp").as_slice(),
    )
}

/// Tells whether a name is that of a picture, in upper or lower case.
pub fn is_supported_image(name: &str) -> (r: bool)
    ensures
        r == supported(lowercase(name@)),
{
    let lower = to_lowercase(name);
    has_picture_extension(lower.as_str())
}

/// The format in which a picture is written.
#[derive(Clone, Copy, Debug, PartialEq, Eq, Structural)]
pub enum Format {
    Png,
    Jpeg,
    WebP,
}

/// The format that a lower-case name asks for.
pub open spec fn format_of(lower: Seq<char>) -> Format {
    if has_tail(lower, ".jpg"@) || has_tail(lower, ".jpeg"@) {
        Format::Jpeg
    } else if has_tail(lower, ".webp"@) {
        Format::WebP
    } else {
        Format::Png
    }
}

/// The format for a lower-case name.
pub fn format_for_lower(lower: &str) -> (r: Format)
    ensures
        r == format_of(lower@),
{
    let s = chars_of(lower);
    if ends_with(s.as_slice(), chars_of(".jpg").as_slice()) || ends_with(
        s.as_slice(),
        chars_of(".jpeg").as_slice(),
    ) {
        Format::Jpeg
    } else if ends_with(s.as_slice(), chars_of(".webp").as_slice()) {
        Format::WebP
    } else {
        Format::Png
    }
}

/// The format in which a picture of this name is written.
pub fn image_format_for(name: &str) -> (r: Format)
    ensures
        r == format_of(lowercase(name@)),
{
    let lower = to_lowercase(name);
    format_for_lower(lower.as_str())
}

/// A lower-case name without its picture extension.
pub open spec fn stem_of(lower: Seq<char>) -> Seq<char> {
    if has_tail(lower, ".png"@) {
        lower.take(lower.len() - ".png"@.len())
    } else if has_tail(lower, ".jpg"@) {
        lower.take(lower.len() - ".jpg"@.len())
    } else if has_tail(lower, ".jpeg"@) {
        lower.take(lower.len() - ".jpeg"@.len())
    } else if has_tail(lower, ".webp"@) {
        lower.take(lower.len() - ".webp"@.len())
    } else {
        lower
    }
}

/// A sort key: numbered names first, by number; then the others, by name.
pub type KeyView = (int, int, Seq<char>);

/// The sort key of a name with the given stem.
pub open spec fn key_with(stem: Seq<char>, name: Seq<char>) -> KeyView {
    match unsigned(stem) {
        Some(n) => (0, n as int, seq![]),
        None => (1, 0, name),
    }
}

/// The sort key of a name.
pub open spec fn key_of(name: Seq<char>) -> KeyView {
    key_with(stem_of(lowercase(name)), name)
}

/// `a` stands before `b` in a dictionary, or is equal to it.
pub open spec fn not_after(a: Seq<char>, b: Seq<char>) -> bool
    decreases a.len(),
{
    if a.len() == 0 {
        true
    } else if b.len() == 0 {
        false
    } else if a[0] as u32 != b[0] as u32 {
        (a[0] as u32) < b[0] as u32
    } else {
        not_after(a.skip(1), b.skip(1))
    }
}

/// The order of sort keys.
pub open spec fn key_le(a: KeyView, b: KeyView) -> bool {
    if a.0 != b.0 {
        a.0 < b.0
    } else if a.1 != b.1 {
        a.1 < b.1
    } else {
        not_after(a.2, b.2)
    }
}

/// A name with its sort key.
pub struct Keyed {
    pub class: u8,
    pub number: u64,
    pub text: Vec<char>,
    pub name: String,
}

impl Keyed {
    pub open spec fn key(&self) -> KeyView {
        (self.class as int, self.number as int, self.text@)
    }
}

/// A name put into a list ordered by keys, behind those with the same key.
pub open spec fn slotted(
    list: Seq<(KeyView, Seq<char>)>,
    item: (KeyView, Seq<char>),
) -> Seq<(KeyView, Seq<char>)>
    decreases list.len(),
{
    if list.len() == 0 || key_le(list.last().0, item.0) {
        list.push(item)
    } else {
        slotted(list.drop_last(), item).push(list.last())
    }
}

/// The first `n` names ordered by their keys; equal keys keep their order.
pub open spec fn ordered(
    list: Seq<(KeyView, Seq<char>)>,
    n: int,
) -> Seq<(KeyView, Seq<char>)>
    decreases n,
{
    if n <= 0 {
        seq![]
    } else {
        slotted(ordered(list, n - 1), list[n - 1])
    }
}

/// What a list of keyed names holds.
pub open spec fn keyed_views(list: Seq<Keyed>) -> Seq<(KeyView, Seq<char>)> {
    Seq::new(list.len(), |i: int| (list[i].key(), list[i].name@))
}

fn is_not_after(a: &[char], b: &[char]) -> (r: bool)
    ensures
        r == not_after(a@, b@),
{
    let n: usize = a.len();
    let m: usize = b.len();
    let mut i: usize = 0;
    proof {
        assert(a@.skip(0) =~= a@);
        assert(b@.skip(0) =~= b@);
    }
    while i < n
        invariant
            n == a@.len(),
            m == b@.len(),
            i <= n,
            i <= m,
            not_after(a@, b@) == not_after(a@.skip(i as int), b@.skip(i as int)),
        decreases n - i,
    {
        proof {
            assert(a@.skip(i as int).skip(1) =~= a@.skip(i + 1));
            if i < m {
                assert(b@.skip(i as int).skip(1) =~= b@.skip(i + 1));
            }
        }
        if i >= m {
            return false;
        }
        let x: u32 = a[i] as u32;
        let y: u32 = b[i] as u32;
        if x != y {
            return x < y;
        }
        i = i + 1;
    }
    true
}

fn key_not_after(a: &Keyed, b: &Keyed) -> (r: bool)
    ensures
        r == key_le(a.key(), b.key()),
{
    if a.class != b.class {
        a.class < b.class
    } else if a.number != b.number {
        a.number < b.number
    } else {
        is_not_after(a.text.as_slice(), b.text.as_slice())
    }
}

proof fn lemma_slotted(
    list: Seq<(KeyView, Seq<char>)>,
    item: (KeyView, Seq<char>),
    at: int,
)
    requires
        0 <= at <= list.len(),
        forall|k: int| at <= k < list.len() ==> !key_le((#[trigger] list[k]).0, item.0),
        at > 0 ==> key_le(list[at - 1].0, item.0),
    ensures
        slotted(list, item) == list.insert(at, item),
    decreases list.len(),
{
    if at == list.len() {
        assert(list.insert(at, item) =~= list.push(item));
    } else {
        lemma_slotted(list.drop_last(), item, at);
        assert(list.insert(at, item) =~= list.drop_last().insert(at, item).push(list.last()));
    }
}

/// Orders keyed names.
fn sort_keyed(items: Vec<Keyed>) -> (r: Vec<Keyed>)
    ensures
        keyed_views(r@) == ordered(keyed_views(items@), items@.len() as int),
{
    let mut items = items;
    let ghost given = items@;
    let ghost all = keyed_views(given);
    let n: usize = items.len();
    let mut out: Vec<Keyed> = Vec::new();
    let mut i: usize = 0;
    proof {
        assert(keyed_views(out@) =~= seq![]);
        assert(items@ =~= given.skip(0));
    }
    while i < n
        invariant
            n == given.len(),
            i <= n,
            all == keyed_views(given),
            items@ == given.skip(i as int),
            keyed_views(out@) == ordered(all, i as int),
        decreases n - i,
    {
        let item = items.remove(0);
        proof {
            assert(item == given[i as int]);
            assert(items@ =~= given.skip(i + 1));
        }
        let mut at: usize = out.len();
        while at > 0 && !key_not_after(&out[at - 1], &item)
            invariant
                at <= out@.len(),
                forall|k: int|
                    at <= k < out@.len() ==> !key_le((#[trigger] out@[k]).key(), item.key()),
            decreases at,
        {
            at = at - 1;
        }
        let ghost before = out@;
        let ghost view = (item.key(), item.name@);
        proof {
            let list = keyed_views(before);
            assert forall|k: int| at <= k < list.len() implies !key_le(
                (#[trigger] list[k]).0,
                view.0,
            ) by {
                assert(list[k].0 == before[k].key());
            }
            lemma_slotted(list, view, at as int);
        }
        out.insert(at, item);
        proof {
            assert(keyed_views(out@) =~= keyed_views(before).insert(at as int, view));
        }
        i = i + 1;
    }
    out
}

/// Any two texts can be ordered.
proof fn lemma_not_after_total(a: Seq<char>, b: Seq<char>)
    ensures
        not_after(a, b) || not_after(b, a),
    decreases a.len(),
{
    if a.len() > 0 && b.len() > 0 && a[0] as u32 == b[0] as u32 {
        lemma_not_after_total(a.skip(1), b.skip(1));
    }
}

proof fn lemma_not_after_chain(a: Seq<char>, b: Seq<char>, c: Seq<char>)
    requires
        not_after(a, b),
        not_after(b, c),
    ensures
        not_after(a, c),
    decreases a.len(),
{
    if a.len() > 0 && b.len() > 0 && c.len() > 0 && a[0] as u32 == b[0] as u32 && b[0] as u32
        == c[0] as u32 {
        lemma_not_after_chain(a.skip(1), b.skip(1), c.skip(1));
    }
}

proof fn lemma_key_chain(a: KeyView, b: KeyView, c: KeyView)
    requires
        key_le(a, b),
        key_le(b, c),
    ensures
        key_le(a, c),
{
    if a.0 == b.0 && b.0 == c.0 && a.1 == b.1 && b.1 == c.1 {
        lemma_not_after_chain(a.2, b.2, c.2);
    }
}

/// No name stands before one with a smaller key.
pub open spec fn in_order(list: Seq<(KeyView, Seq<char>)>) -> bool {
    forall|i: int, j: int|
        #![trigger list[i], list[j]]
        0 <= i < j < list.len() ==> key_le(list[i].0, list[j].0)
}

proof fn lemma_slotted_in_order(
    list: Seq<(KeyView, Seq<char>)>,
    item: (KeyView, Seq<char>),
)
    requires
        in_order(list),
    ensures
        in_order(slotted(list, item)),
        slotted(list, item).to_multiset() == list.to_multiset().insert(item),
        slotted(list, item).len() == list.len() + 1,
        forall|k: int|
            0 <= k < slotted(list, item).len() ==> (#[trigger] slotted(list, item)[k] == item
                || list.contains(slotted(list, item)[k])),
    decreases list.len(),
{
    broadcast use {vstd::multiset::group_multiset_axioms, vstd::seq_lib::group_to_multiset_ensures};

    let r = slotted(list, item);
    if list.len() == 0 || key_le(list.last().0, item.0) {
        assert forall|i: int, j: int|
            #![trigger r[i], r[j]]
            0 <= i < j < r.len() implies key_le(r[i].0, r[j].0) by {
            if j == list.len() {
                assert(r[i] == list[i]);
                if i < list.len() - 1 {
                    assert(key_le(list[i].0, list[list.len() - 1].0));
                    lemma_key_chain(list[i].0, list.last().0, item.0);
                }
            } else {
                assert(r[i] == list[i] && r[j] == list[j]);
            }
        }
        assert forall|k: int| 0 <= k < r.len() implies (#[trigger] r[k] == item || list.contains(
            r[k],
        )) by {
            if k < list.len() {
                assert(list[k] == r[k]);
            }
        }
    } else {
        let rest = list.drop_last();
        let last = list.last();
        assert forall|i: int, j: int|
            #![trigger rest[i], rest[j]]
            0 <= i < j < rest.len() implies key_le(rest[i].0, rest[j].0) by {
            assert(rest[i] == list[i] && rest[j] == list[j]);
        }
        lemma_slotted_in_order(rest, item);
        let part = slotted(rest, item);
        if last.0.0 == item.0.0 && last.0.1 == item.0.1 {
            lemma_not_after_total(last.0.2, item.0.2);
        }
        assert(key_le(item.0, last.0));
        assert forall|i: int, j: int|
            #![trigger r[i], r[j]]
            0 <= i < j < r.len() implies key_le(r[i].0, r[j].0) by {
            assert(r[i] == part[i]);
            if j < part.len() {
                assert(r[j] == part[j]);
            } else if part[i] != item {
                let k = choose|k: int| 0 <= k < rest.len() && rest[k] == part[i];
                assert(list[k] == rest[k]);
                assert(key_le(list[k].0, list[list.len() - 1].0));
            }
        }
        assert(list =~= rest.push(last));
        assert(r.to_multiset() =~= list.to_multiset().insert(item));
        assert forall|k: int| 0 <= k < r.len() implies (#[trigger] r[k] == item || list.contains(
            r[k],
        )) by {
            if k < part.len() {
                assert(r[k] == part[k]);
                if part[k] != item {
                    let m = choose|m: int| 0 <= m < rest.len() && rest[m] == part[k];
                    assert(list[m] == r[k]);
                }
            } else {
                assert(list[list.len() - 1] == r[k]);
            }
        }
    }
}

/// Ordering puts the names in order and neither loses nor adds one.
pub proof fn lemma_ordered(list: Seq<(KeyView, Seq<char>)>, n: int)
    requires
        0 <= n <= list.len(),
    ensures
        in_order(ordered(list, n)),
        ordered(list, n).to_multiset() == list.take(n).to_multiset(),
        ordered(list, n).len() == n,
    decreases n,
{
    broadcast use {vstd::multiset::group_multiset_axioms, vstd::seq_lib::group_to_multiset_ensures};

    if n > 0 {
        lemma_ordered(list, n - 1);
        lemma_slotted_in_order(ordered(list, n - 1), list[n - 1]);
        assert(list.take(n) =~= list.take(n - 1).push(list[n - 1]));
    } else {
        assert(list.take(0) =~= seq![]);
    }
}

/// The sort key of a name with a given stem.
fn keyed(stem: &[char], name: String) -> (r: Keyed)
    ensures
        r.key() == key_with(stem@, name@),
        r.name@ == name@,
{
    match parse_unsigned(stem) {
        Some(n) => {
            let text: Vec<char> = Vec::new();
            proof {
                assert(text@ =~= seq![]);
            }
            Keyed { class: 0, number: n, text, name }
        },
        None => Keyed { class: 1, number: 0, text: chars_of(name.as_str()), name },
    }
}

fn stem(lower: &[char]) -> (r: Vec<char>)
    ensures
        r@ == stem_of(lower@),
{
    let n: usize = lower.len();
    let png = chars_of(".png");
    let jpg = chars_of(".jpg");
    let jpeg = chars_of(".jpeg");
    let webp = chars_of(".webp");
    let end: usize = if ends_with(lower, png.as_slice()) {
        n - png.len()
    } else if ends_with(lower, jpg.as_slice()) {
        n - jpg.len()
    } else if ends_with(lower, jpeg.as_slice()) {
        n - jpeg.len()
    } else if ends_with(lower, webp.as_slice()) {
        n - webp.len()
    } else {
        n
    };
    let r = slice_of(lower, 0, end);
    proof {
        assert(lower@.subrange(0, end as int) =~= lower@.take(end as int));
        assert(lower@.take(n as int) =~= lower@);
    }
    r
}

/// The sort key of a name whose lower-case form is given.
pub fn key_from_lower(lower: &str, name: &str) -> (r: (u8, u64, String))
    ensures
        (r.0 as int, r.1 as int, r.2@) == key_with(stem_of(lower@), name@),
{
    let s = chars_of(lower);
    let k = keyed(stem(s.as_slice()).as_slice(), name.to_owned());
    (k.class, k.number, text_of(k.text.as_slice()))
}

/// The sort key of a name: its number, where the name without the extension is
/// one; else the name, behind all numbers.
pub fn numeric_key(name: &str) -> (r: (u8, u64, String))
    ensures
        (r.0 as int, r.1 as int, r.2@) == key_of(name@),
{
    let lower = to_lowercase(name);
    key_from_lower(lower.as_str(), name)
}

/// The names among the first `n` that are pictures.
pub open spec fn pictures_among(listing: Seq<Seq<char>>, n: int) -> Seq<Seq<char>>
    decreases n,
{
    if n <= 0 {
        seq![]
    } else if supported(lowercase(listing[n - 1])) {
        pictures_among(listing, n - 1).push(listing[n - 1])
    } else {
        pictures_among(listing, n - 1)
    }
}

/// Names with their sort keys.
pub open spec fn with_keys(names: Seq<Seq<char>>) -> Seq<(KeyView, Seq<char>)> {
    Seq::new(names.len(), |i: int| (key_of(names[i]), names[i]))
}

/// The names without the keys.
pub open spec fn without_keys(list: Seq<(KeyView, Seq<char>)>) -> Seq<Seq<char>> {
    Seq::new(list.len(), |i: int| list[i].1)
}

/// The pictures of a directory in working order.
pub open spec fn working_order(listing: Seq<Seq<char>>) -> Seq<Seq<char>> {
    let found = pictures_among(listing, listing.len() as int);
    without_keys(ordered(with_keys(found), found.len() as int))
}

/// Takes the names out of a list with keys.
fn take_names(items: Vec<Keyed>) -> (r: Vec<String>)
    ensures
        texts(r@) == without_keys(keyed_views(items@)),
{
    let n: usize = items.len();
    let mut out: Vec<String> = Vec::new();
    let mut i: usize = 0;
    while i < n
        invariant
            n == items@.len(),
            i <= n,
            texts(out@) == without_keys(keyed_views(items@)).take(i as int),
        decreases n - i,
    {
        let name = items[i].name.clone();
        proof {
            lemma_texts_push(out@, name);
            let all = without_keys(keyed_views(items@));
            assert(all.take(i + 1) =~= all.take(i as int).push(all[i as int]));
        }
        out.push(name);
        i = i + 1;
    }
    proof {
        let all = without_keys(keyed_views(items@));
        assert(all.take(n as int) =~= all);
    }
    out
}

/// Picks the pictures out of a directory listing and orders them.
pub fn order_listing(listing: &[String]) -> (r: Vec<String>)
    ensures
        texts(r@) == working_order(texts(listing@)),
{
    let n: usize = listing.len();
    let mut items: Vec<Keyed> = Vec::new();
    let mut i: usize = 0;
    let ghost all = texts(listing@);
    proof {
        assert(keyed_views(items@) =~= with_keys(seq![]));
    }
    while i < n
        invariant
            n == listing@.len(),
            i <= n,
            all == texts(listing@),
            keyed_views(items@) == with_keys(pictures_among(all, i as int)),
        decreases n - i,
    {
        let name: &String = &listing[i];
        if is_supported_image(name.as_str()) {
            let lower = to_lowercase(name.as_str());
            let s = chars_of(lower.as_str());
            let item = keyed(stem(s.as_slice()).as_slice(), name.clone());
            proof {
                let found = pictures_among(all, i as int);
                assert(keyed_views(items@.push(item)) =~= keyed_views(items@).push(
                    (item.key(), item.name@),
                ));
                assert(all[i as int] == name@);
                assert(with_keys(found.push(name@)) =~= with_keys(found).push(
                    (key_of(name@), name@),
                ));
            }
            items.push(item);
        }
        i = i + 1;
    }
    let sorted = sort_keyed(items);
    take_names(sorted)
}

pub open spec fn unsupported_message(name: Seq<char>) -> Seq<char> {
    "unsupported image: "@ + name + " (supported: png, jpg, jpeg, webp)"@
}

pub open spec fn missing_message(name: Seq<char>) -> Seq<char> {
    "missing file: "@ + name
}

pub open spec fn no_pictures_message(root: Seq<char>) -> Seq<char> {
    "no image files (png/jpg/webp) found in: "@ + root
        + "\nhint: pass a folder, e.g. clean-cli --root /path/to/images run"@
}

/// The first of the files from `i` on that is not a picture or does not exist,
/// as a message.
pub open spec fn complaint(files: Seq<Seq<char>>, exists_: Seq<bool>, i: int) -> Option<Seq<char>>
    decreases files.len() - i,
{
    if i < 0 || i >= files.len() {
        None
    } else if !supported(lowercase(files[i])) {
        Some(unsupported_message(files[i]))
    } else if !exists_[i] {
        Some(missing_message(files[i]))
    } else {
        complaint(files, exists_, i + 1)
    }
}

/// The names to work on. With files given: those, each a picture that exists;
/// the first that is not is an error. Else the pictures of the directory in
/// working order; none is an error. `present` tells which of the files exist.
pub fn target_names(
    root: &str,
    listing: &[String],
    files: &[String],
    present: &[bool],
) -> (r: Result<Vec<String>, String>)
    requires
        present@.len() == files@.len(),
    ensures
        files@.len() == 0 ==> ({
            let names = working_order(texts(listing@));
            if names.len() == 0 {
                r matches Err(e) && e@ == no_pictures_message(root@)
            } else {
                r matches Ok(found) && texts(found@) == names
            }
        }),
        files@.len() > 0 ==> match complaint(texts(files@), present@, 0) {
            Some(message) => r matches Err(e) && e@ == message,
            None => r matches Ok(found) && texts(found@) == texts(files@),
        },
{
    if files.len() == 0 {
        let names = order_listing(listing);
        if names.len() == 0 {
            proof {
                assert(texts(names@).len() == 0);
            }
            let mut message = String::from_str("no image files (png/jpg/webp) found in: ");
            message.append(root);
            message.append("\nhint: pass a folder, e.g. clean-cli --root /path/to/images run");
            return Err(message);
        }
        proof {
            assert(texts(names@).len() > 0);
        }
        return Ok(names);
    }
    let n: usize = files.len();
    let mut out: Vec<String> = Vec::new();
    let mut i: usize = 0;
    let ghost all = texts(files@);
    while i < n
        invariant
            n == files@.len(),
            present@.len() == n,
            files@.len() > 0,
            i <= n,
            all == texts(files@),
            complaint(all, present@, i as int) == complaint(all, present@, 0),
            texts(out@) == all.take(i as int),
        decreases n - i,
    {
        let name: &String = &files[i];
        if !is_supported_image(name.as_str()) {
            let mut message = String::from_str("unsupported image: ");
            message.append(name.as_str());
            message.append(" (supported: png, jpg, jpeg, webp)");
            return Err(message);
        }
        if !present[i] {
            let mut message = String::from_str("missing file: ");
            message.append(name.as_str());
            return Err(message);
        }
        let copy = name.clone();
        proof {
            lemma_texts_push(out@, copy);
            assert(all.take(i + 1) =~= all.take(i as int).push(all[i as int]));
        }
        out.push(copy);
        i = i + 1;
    }
    proof {
        assert(all.take(n as int) =~= all);
    }
    Ok(out)
}

/// How many characters stand before the last dot; all of them where there is
/// none.
pub open spec fn dot_position(name: Seq<char>, n: int) -> int
    decreases n,
{
    if n <= 0 {
        name.len() as int
    } else if name[n - 1] == '.' {
        n - 1
    } else {
        dot_position(name, n - 1)
    }
}

/// What stands before the last dot of a name, or the name where it has none.
pub open spec fn before_dot(name: Seq<char>) -> Seq<char> {
    name.take(dot_position(name, name.len() as int))
}

/// Names with the sort keys of a listing.
pub open spec fn with_listing_keys(names: Seq<Seq<char>>) -> Seq<(KeyView, Seq<char>)> {
    Seq::new(names.len(), |i: int| (key_with(before_dot(names[i]), names[i]), names[i]))
}

/// The pictures of a directory in the order in which they are listed.
pub open spec fn listing_order(listing: Seq<Seq<char>>) -> Seq<Seq<char>> {
    let found = pictures_among(listing, listing.len() as int);
    without_keys(ordered(with_listing_keys(found), found.len() as int))
}

fn cut_extension(name: &[char]) -> (r: Vec<char>)
    ensures
        r@ == before_dot(name@),
{
    let n: usize = name.len();
    let mut i: usize = n;
    while i > 0 && name[i - 1] != '.'
        invariant
            n == name@.len(),
            i <= n,
            dot_position(name@, i as int) == dot_position(name@, n as int),
        decreases i,
    {
        i = i - 1;
    }
    let end: usize = if i > 0 {
        i - 1
    } else {
        n
    };
    let r = slice_of(name, 0, end);
    proof {
        assert(name@.subrange(0, end as int) =~= name@.take(end as int));
    }
    r
}

/// Picks the pictures out of a directory listing and orders them for display:
/// numbered names first, by number, then the others by name.
pub fn list_pictures(listing: &[String]) -> (r: Vec<String>)
    ensures
        texts(r@) == listing_order(texts(listing@)),
{
    let n: usize = listing.len();
    let mut items: Vec<Keyed> = Vec::new();
    let mut i: usize = 0;
    let ghost all = texts(listing@);
    proof {
        assert(keyed_views(items@) =~= with_listing_keys(seq![]));
    }
    while i < n
        invariant
            n == listing@.len(),
            i <= n,
            all == texts(listing@),
            keyed_views(items@) == with_listing_keys(pictures_among(all, i as int)),
        decreases n - i,
    {
        let name: &String = &listing[i];
        if is_supported_image(name.as_str()) {
            let s = chars_of(name.as_str());
            let item = keyed(cut_extension(s.as_slice()).as_slice(), name.clone());
            proof {
                let found = pictures_among(all, i as int);
                assert(keyed_views(items@.push(item)) =~= keyed_views(items@).push(
                    (item.key(), item.name@),
                ));
                assert(all[i as int] == name@);
                assert(with_listing_keys(found.push(name@)) =~= with_listing_keys(found).push(
                    (key_with(before_dot(name@), name@), name@),
                ));
            }
            items.push(item);
        }
        i = i + 1;
    }
    let sorted = sort_keyed(items);
    take_names(sorted)
}

} // verus!
