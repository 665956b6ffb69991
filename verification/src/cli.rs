//! The command line: options, commands, and what each of them asks for.

use crate::boxes::MaskBox;
use crate::number::Number;
use crate::pipeline::PipelineOptions;
use crate::text::{
    ascii_lowered, chars_of, fails_with, lemma_texts_push, lower_ascii, parse_signed,
    parse_unsigned, pieces, same, signed, slice_of, split, text_of, texts, trim, trimmed, unsigned,
    views,
};
use vstd::prelude::*;

verus! {

fn is(s: &[char], word: &str) -> (r: bool)
    ensures
        r == (s@ == word@),
{
    same(s, chars_of(word).as_slice())
}

/// What an argument sets.
#[derive(Clone, Copy, Debug, PartialEq, Eq, Structural)]
pub enum Key {
    Root,
    MaskBox,
    Box,
    Label,
    RefShort,
    Bg,
    Color,
    KeepWork,
    Overwrite,
    AnyPosition,
    NoProfile,
    Force,
    NoInverse,
    NoRetry,
    Refine,
    Profile,
    Model,
    MinSamples,
    CornerTol,
    Recursive,
    DryRun,
    Out,
    Help,
    /// A command or a file.
    Word,
}

/// What an argument of this name sets.
pub open spec fn key_of(name: Seq<char>) -> Key {
    if name == "--root"@ {
        Key::Root
    } else if name == "--mask-box"@ {
        Key::MaskBox
    } else if name == "--box"@ {
        Key::Box
    } else if name == "--label"@ || name == "--label-prefix"@ {
        Key::Label
    } else if name == "--ref-short"@ {
        Key::RefShort
    } else if name == "--bg"@ {
        Key::Bg
    } else if name == "--color"@ {
        Key::Color
    } else if name == "--keep-work"@ {
        Key::KeepWork
    } else if name == "--overwrite"@ || name == "--in-place"@ {
        Key::Overwrite
    } else if name == "--any-position"@ {
        Key::AnyPosition
    } else if name == "--no-profile"@ || name == "--no-profiles"@ {
        Key::NoProfile
    } else if name == "--force"@ {
        Key::Force
    } else if name == "--no-inverse"@ {
        Key::NoInverse
    } else if name == "--no-retry"@ {
        Key::NoRetry
    } else if name == "--refine"@ {
        Key::Refine
    } else if name == "--profile"@ {
        Key::Profile
    } else if name == "--model"@ {
        Key::Model
    } else if name == "--min-samples"@ {
        Key::MinSamples
    } else if name == "--corner-tol"@ {
        Key::CornerTol
    } else if name == "--recursive"@ {
        Key::Recursive
    } else if name == "--dry-run"@ {
        Key::DryRun
    } else if name == "--out"@ {
        Key::Out
    } else if name == "-h"@ || name == "--help"@ {
        Key::Help
    } else {
        Key::Word
    }
}

fn find_key(name: &[char]) -> (r: Key)
    ensures
        r == key_of(name@),
{
    if is(name, "--root") {
        Key::Root
    } else if is(name, "--mask-box") {
        Key::MaskBox
    } else if is(name, "--box") {
        Key::Box
    } else if is(name, "--label") || is(name, "--label-prefix") {
        Key::Label
    } else if is(name, "--ref-short") {
        Key::RefShort
    } else if is(name, "--bg") {
        Key::Bg
    } else if is(name, "--color") {
        Key::Color
    } else if is(name, "--keep-work") {
        Key::KeepWork
    } else if is(name, "--overwrite") || is(name, "--in-place") {
        Key::Overwrite
    } else if is(name, "--any-position") {
        Key::AnyPosition
    } else if is(name, "--no-profile") || is(name, "--no-profiles") {
        Key::NoProfile
    } else if is(name, "--force") {
        Key::Force
    } else if is(name, "--no-inverse") {
        Key::NoInverse
    } else if is(name, "--no-retry") {
        Key::NoRetry
    } else if is(name, "--refine") {
        Key::Refine
    } else if is(name, "--profile") {
        Key::Profile
    } else if is(name, "--model") {
        Key::Model
    } else if is(name, "--min-samples") {
        Key::MinSamples
    } else if is(name, "--corner-tol") {
        Key::CornerTol
    } else if is(name, "--recursive") {
        Key::Recursive
    } else if is(name, "--dry-run") {
        Key::DryRun
    } else if is(name, "--out") {
        Key::Out
    } else if is(name, "-h") || is(name, "--help") {
        Key::Help
    } else {
        Key::Word
    }
}

/// The option is followed by a value.
pub open spec fn takes_value(key: Key) -> bool {
    match key {
        Key::Root
        | Key::MaskBox
        | Key::Box
        | Key::Label
        | Key::RefShort
        | Key::Bg
        | Key::Color
        | Key::Profile
        | Key::Model
        | Key::MinSamples
        | Key::CornerTol
        | Key::Out => true,
        _ => false,
    }
}

fn wants_value(key: Key) -> (r: bool)
    ensures
        r == takes_value(key),
{
    match key {
        Key::Root
        | Key::MaskBox
        | Key::Box
        | Key::Label
        | Key::RefShort
        | Key::Bg
        | Key::Color
        | Key::Profile
        | Key::Model
        | Key::MinSamples
        | Key::CornerTol
        | Key::Out => true,
        _ => false,
    }
}

/// An argument with its value: what follows its equals sign or is the next
/// argument for an option that takes one, the word itself for a word.
pub struct Item {
    pub key: Key,
    pub value: Option<String>,
}

pub type ItemView = (Key, Option<Seq<char>>);

pub open spec fn value_view(v: Option<String>) -> Option<Seq<char>> {
    match v {
        Some(s) => Some(s@),
        None => None,
    }
}

pub open spec fn item_view(i: Item) -> ItemView {
    (i.key, value_view(i.value))
}

pub open spec fn item_views(items: Seq<Item>) -> Seq<ItemView> {
    Seq::new(items.len(), |i: int| item_view(items[i]))
}

/// Where the first equals sign stands, or the end.
pub open spec fn equals_at(s: Seq<char>) -> int
    decreases s.len(),
{
    if s.len() == 0 || s[0] == '=' {
        0
    } else {
        1 + equals_at(s.skip(1))
    }
}

/// What stands before the first equals sign.
pub open spec fn name_in(arg: Seq<char>) -> Seq<char> {
    arg.take(equals_at(arg))
}

/// What stands behind the first equals sign, if there is one.
pub open spec fn inline_value(arg: Seq<char>) -> Option<Seq<char>> {
    if equals_at(arg) < arg.len() {
        Some(arg.skip(equals_at(arg) + 1))
    } else {
        None
    }
}

/// The first argument as an item, and how many arguments it takes.
pub open spec fn first_item(args: Seq<Seq<char>>) -> (ItemView, int) {
    let name = name_in(args[0]);
    let key = key_of(name);
    if key == Key::Word {
        ((key, Some(name)), 1)
    } else if !takes_value(key) {
        ((key, None), 1)
    } else if inline_value(args[0]) is Some {
        ((key, inline_value(args[0])), 1)
    } else if args.len() > 1 {
        ((key, Some(args[1])), 2)
    } else {
        ((key, None), 1)
    }
}

/// The arguments as items.
pub open spec fn items_in(args: Seq<Seq<char>>) -> Seq<ItemView>
    decreases args.len(),
{
    if args.len() == 0 {
        seq![]
    } else {
        let (item, used) = first_item(args);
        seq![item] + items_in(args.skip(used))
    }
}

proof fn lemma_equals_at(s: Seq<char>)
    ensures
        0 <= equals_at(s) <= s.len(),
        equals_at(s) < s.len() ==> s[equals_at(s)] == '=',
        forall|i: int| 0 <= i < equals_at(s) ==> #[trigger] s[i] != '=',
    decreases s.len(),
{
    if s.len() > 0 && s[0] != '=' {
        let t = s.skip(1);
        lemma_equals_at(t);
        assert forall|i: int| 0 <= i < equals_at(s) implies #[trigger] s[i] != '=' by {
            if i > 0 {
                assert(t[i - 1] == s[i]);
            }
        }
    }
}

fn find_equals(s: &[char]) -> (r: usize)
    ensures
        r == equals_at(s@),
        r <= s@.len(),
{
    let n: usize = s.len();
    let mut i: usize = 0;
    proof {
        lemma_equals_at(s@);
    }
    while i < n && s[i] != '='
        invariant
            n == s@.len(),
            i <= n,
            i <= equals_at(s@) <= n,
            equals_at(s@) < n ==> s@[equals_at(s@)] == '=',
            forall|k: int| 0 <= k < equals_at(s@) ==> #[trigger] s@[k] != '=',
        decreases n - i,
    {
        i = i + 1;
    }
    i
}

/// Reads the arguments: `--option value` and `--option=value` are the same.
pub fn read_arguments(args: &[String]) -> (r: Vec<Item>)
    ensures
        item_views(r@) == items_in(texts(args@)),
{
    let n: usize = args.len();
    let mut out: Vec<Item> = Vec::new();
    let mut i: usize = 0;
    let ghost all = texts(args@);
    proof {
        assert(all.skip(0) =~= all);
        assert(item_views(out@) + items_in(all) =~= items_in(all));
    }
    while i < n
        invariant
            n == args@.len(),
            all == texts(args@),
            i <= n,
            item_views(out@) + items_in(all.skip(i as int)) == items_in(all),
        decreases n - i,
    {
        let chars = chars_of(args[i].as_str());
        let cut: usize = find_equals(chars.as_slice());
        let name = slice_of(chars.as_slice(), 0, cut);
        let ghost rest = all.skip(i as int);
        let ghost before = item_views(out@);
        proof {
            lemma_equals_at(chars@);
            assert(rest[0] == chars@);
            assert(name@ =~= name_in(chars@));
        }
        let key = find_key(name.as_slice());
        let mut used: usize = 1;
        let value: Option<String> = if key == Key::Word {
            Some(text_of(name.as_slice()))
        } else if !wants_value(key) {
            None
        } else if cut < chars.len() {
            let tail = slice_of(chars.as_slice(), cut + 1, chars.len());
            proof {
                assert(tail@ =~= chars@.skip(cut + 1));
            }
            Some(text_of(tail.as_slice()))
        } else if n - i > 1 {
            used = 2;
            proof {
                assert(rest[1] == all[i + 1]);
            }
            Some(String::from_str(args[i + 1].as_str()))
        } else {
            None
        };
        let item = Item { key, value };
        proof {
            assert(item_view(item) == first_item(rest).0);
            assert(used == first_item(rest).1);
            assert(all.skip(i + used) =~= rest.skip(used as int));
        }
        out.push(item);
        proof {
            assert(item_views(out@) =~= before.push(item_view(item)));
            assert(before + (seq![item_view(item)] + items_in(rest.skip(used as int)))
                =~= item_views(out@) + items_in(rest.skip(used as int)));
        }
        i = i + used;
    }
    proof {
        assert(all.skip(n as int) =~= seq![]);
        assert(item_views(out@) + Seq::<ItemView>::empty() =~= item_views(out@));
    }
    out
}

/// The numbers that a comma-separated text writes, if all of it does.
pub open spec fn all_numbers(parts: Seq<Seq<char>>) -> Option<Seq<i64>>
    decreases parts.len(),
{
    if parts.len() == 0 {
        Some(seq![])
    } else {
        match (all_numbers(parts.drop_last()), signed(trimmed(parts.last()))) {
            (Some(s), Some(v)) => Some(s.push(v)),
            _ => None,
        }
    }
}

/// The box that four comma-separated integers write.
pub open spec fn box_text(value: Seq<char>) -> Option<MaskBox> {
    match all_numbers(pieces(value, ',')) {
        Some(n) => if n.len() == 4 {
            Some(MaskBox { x1: n[0], y1: n[1], x2: n[2], y2: n[3] })
        } else {
            None
        },
        None => None,
    }
}

pub open spec fn box_message() -> Seq<char> {
    "box must be four integers: x1,y1,x2,y2"@
}

/// Reads a box out of four comma-separated integers.
pub fn parse_box(value: &str) -> (r: Result<MaskBox, String>)
    ensures
        match box_text(value@) {
            Some(b) => r matches Ok(m) && m == b,
            None => fails_with(r, box_message()),
        },
{
    let chars = chars_of(value);
    let parts = split(chars.as_slice(), ',');
    let ghost all = views(parts@);
    let n: usize = parts.len();
    let mut found: Vec<i64> = Vec::new();
    let mut i: usize = 0;
    proof {
        assert(all.take(0) =~= seq![]);
    }
    while i < n
        invariant
            n == parts@.len(),
            all == views(parts@),
            all == pieces(value@, ','),
            i <= n,
            all_numbers(all.take(i as int)) == Some(found@),
        decreases n - i,
    {
        proof {
            assert(all.take(i + 1).drop_last() =~= all.take(i as int));
            assert(all.take(i + 1).last() == parts@[i as int]@);
        }
        match parse_signed(trim(parts[i].as_slice()).as_slice()) {
            Some(v) => {
                found.push(v);
            },
            None => {
                proof {
                    lemma_not_all_numbers(all, i + 1);
                }
                return Err(String::from_str("box must be four integers: x1,y1,x2,y2"));
            },
        }
        i = i + 1;
    }
    proof {
        assert(all.take(n as int) =~= all);
    }
    if found.len() != 4 {
        return Err(String::from_str("box must be four integers: x1,y1,x2,y2"));
    }
    Ok(MaskBox { x1: found[0], y1: found[1], x2: found[2], y2: found[3] })
}

proof fn lemma_not_all_numbers(parts: Seq<Seq<char>>, n: int)
    requires
        0 <= n <= parts.len(),
        all_numbers(parts.take(n)) is None,
    ensures
        all_numbers(parts) is None,
    decreases parts.len() - n,
{
    if n < parts.len() {
        assert(parts.take(n + 1).drop_last() =~= parts.take(n));
        lemma_not_all_numbers(parts, n + 1);
    } else {
        assert(parts.take(n) =~= parts);
    }
}

/// Why the command line is not followed.
#[derive(Clone, Copy, Debug, PartialEq, Eq, Structural)]
pub enum Halt {
    /// Help was asked for.
    Help,
    MaskBoxMissing,
    BoxMissing,
    BoxInvalid,
}

/// What an item halts for.
pub open spec fn item_halt(item: ItemView) -> Option<Halt> {
    match (item.0, item.1) {
        (Key::Help, _) => Some(Halt::Help),
        (Key::MaskBox, None) => Some(Halt::MaskBoxMissing),
        (Key::Box, None) => Some(Halt::BoxMissing),
        (Key::MaskBox, Some(v)) => if box_text(v) is None {
            Some(Halt::BoxInvalid)
        } else {
            None
        },
        (Key::Box, Some(v)) => if box_text(v) is None {
            Some(Halt::BoxInvalid)
        } else {
            None
        },
        _ => None,
    }
}

/// What the first item that halts halts for.
pub open spec fn first_halt(items: Seq<ItemView>) -> Option<Halt>
    decreases items.len(),
{
    if items.len() == 0 {
        None
    } else if item_halt(items[0]) is Some {
        item_halt(items[0])
    } else {
        first_halt(items.skip(1))
    }
}

fn halt_of(item: &Item) -> (r: Option<Halt>)
    ensures
        r == item_halt(item_view(*item)),
{
    match item.key {
        Key::Help => Some(Halt::Help),
        Key::MaskBox => match &item.value {
            None => Some(Halt::MaskBoxMissing),
            Some(v) => match parse_box(v.as_str()) {
                Ok(_) => None,
                Err(_) => Some(Halt::BoxInvalid),
            },
        },
        Key::Box => match &item.value {
            None => Some(Halt::BoxMissing),
            Some(v) => match parse_box(v.as_str()) {
                Ok(_) => None,
                Err(_) => Some(Halt::BoxInvalid),
            },
        },
        _ => None,
    }
}

/// What the arguments halt for, if for anything.
pub fn halted(items: &[Item]) -> (r: Option<Halt>)
    ensures
        r == first_halt(item_views(items@)),
{
    let n: usize = items.len();
    let ghost all = item_views(items@);
    let mut i: usize = 0;
    proof {
        assert(all.skip(0) =~= all);
    }
    while i < n
        invariant
            n == items@.len(),
            all == item_views(items@),
            i <= n,
            first_halt(all.skip(i as int)) == first_halt(all),
        decreases n - i,
    {
        let h = halt_of(&items[i]);
        proof {
            assert(all.skip(i as int)[0] == item_view(items@[i as int]));
            assert(all.skip(i as int).skip(1) =~= all.skip(i + 1));
        }
        if h.is_some() {
            return h;
        }
        i = i + 1;
    }
    None
}

pub open spec fn halt_message(h: Halt) -> Seq<char> {
    match h {
        Halt::Help => ""@,
        Halt::MaskBoxMissing => "--mask-box needs a value"@,
        Halt::BoxMissing => "--box needs a value"@,
        Halt::BoxInvalid => box_message(),
    }
}

/// What is said on a halt.
pub fn halt_text(h: Halt) -> (r: String)
    ensures
        r@ == halt_message(h),
{
    match h {
        Halt::Help => String::from_str(""),
        Halt::MaskBoxMissing => String::from_str("--mask-box needs a value"),
        Halt::BoxMissing => String::from_str("--box needs a value"),
        Halt::BoxInvalid => String::from_str("box must be four integers: x1,y1,x2,y2"),
    }
}

/// The value of the last item with a key.
pub open spec fn last_of(items: Seq<ItemView>, key: Key) -> Option<Seq<char>>
    decreases items.len(),
{
    if items.len() == 0 {
        None
    } else if items.last().0 == key {
        items.last().1
    } else {
        last_of(items.drop_last(), key)
    }
}

/// The value of the last item with a key.
pub fn last_value(items: &[Item], key: Key) -> (r: Option<String>)
    ensures
        value_view(r) == last_of(item_views(items@), key),
{
    let ghost all = item_views(items@);
    let mut i: usize = items.len();
    proof {
        assert(all.take(i as int) =~= all);
    }
    while i > 0
        invariant
            all == item_views(items@),
            i <= items@.len(),
            last_of(all.take(i as int), key) == last_of(all, key),
        decreases i,
    {
        proof {
            assert(all.take(i as int).last() == item_view(items@[i - 1]));
            assert(all.take(i as int).drop_last() =~= all.take(i - 1));
        }
        if items[i - 1].key == key {
            return match &items[i - 1].value {
                Some(v) => Some(String::from_str(v.as_str())),
                None => None,
            };
        }
        i = i - 1;
    }
    None
}

/// An item with a key is there.
pub open spec fn is_set(items: Seq<ItemView>, key: Key) -> bool {
    exists|i: int| 0 <= i < items.len() && (#[trigger] items[i]).0 == key
}

pub fn has_key(items: &[Item], key: Key) -> (r: bool)
    ensures
        r == is_set(item_views(items@), key),
{
    let n: usize = items.len();
    let ghost all = item_views(items@);
    let mut i: usize = 0;
    while i < n
        invariant
            n == items@.len(),
            all == item_views(items@),
            i <= n,
            forall|k: int| 0 <= k < i ==> (#[trigger] all[k]).0 != key,
        decreases n - i,
    {
        if items[i].key == key {
            proof {
                assert(all[i as int].0 == key);
            }
            return true;
        }
        i = i + 1;
    }
    false
}

/// The words among the first `n` items.
pub open spec fn words_in(items: Seq<ItemView>, n: int) -> Seq<Seq<char>>
    decreases n,
{
    if n <= 0 {
        seq![]
    } else {
        match items[n - 1] {
            (Key::Word, Some(w)) => words_in(items, n - 1).push(w),
            _ => words_in(items, n - 1),
        }
    }
}

/// The words: the command first, then the files.
pub fn words_of(items: &[Item]) -> (r: Vec<String>)
    ensures
        texts(r@) == words_in(item_views(items@), items@.len() as int),
{
    let n: usize = items.len();
    let ghost all = item_views(items@);
    let mut out: Vec<String> = Vec::new();
    let mut i: usize = 0;
    proof {
        assert(texts(out@) =~= seq![]);
    }
    while i < n
        invariant
            n == items@.len(),
            all == item_views(items@),
            i <= n,
            texts(out@) == words_in(all, i as int),
        decreases n - i,
    {
        proof {
            assert(all[i as int] == item_view(items@[i as int]));
        }
        if items[i].key == Key::Word {
            match &items[i].value {
                Some(w) => {
                    let word = String::from_str(w.as_str());
                    proof {
                        lemma_texts_push(out@, word);
                    }
                    out.push(word);
                },
                None => {},
            }
        }
        i = i + 1;
    }
    out
}

/// The box of the last item with a key.
pub open spec fn last_box_of(items: Seq<ItemView>, key: Key) -> Option<MaskBox> {
    match last_of(items, key) {
        Some(v) => box_text(v),
        None => None,
    }
}

pub fn last_box(items: &[Item], key: Key) -> (r: Option<MaskBox>)
    ensures
        r == last_box_of(item_views(items@), key),
{
    match last_value(items, key) {
        Some(v) => match parse_box(v.as_str()) {
            Ok(b) => Some(b),
            Err(_) => None,
        },
        None => None,
    }
}

/// The least number of samples after the first `n` items: three, unless a
/// number says otherwise.
pub open spec fn samples_after(items: Seq<ItemView>, n: int) -> int
    decreases n,
{
    if n <= 0 {
        3
    } else {
        match items[n - 1] {
            (Key::MinSamples, Some(v)) => match unsigned(v) {
                Some(m) => m as int,
                None => samples_after(items, n - 1),
            },
            _ => samples_after(items, n - 1),
        }
    }
}

pub fn min_samples(items: &[Item]) -> (r: u64)
    ensures
        r == samples_after(item_views(items@), items@.len() as int),
{
    let n: usize = items.len();
    let ghost all = item_views(items@);
    let mut least: u64 = 3;
    let mut i: usize = 0;
    while i < n
        invariant
            n == items@.len(),
            all == item_views(items@),
            i <= n,
            least == samples_after(all, i as int),
        decreases n - i,
    {
        proof {
            assert(all[i as int] == item_view(items@[i as int]));
        }
        if items[i].key == Key::MinSamples {
            match &items[i].value {
                Some(v) => match parse_unsigned(chars_of(v.as_str()).as_slice()) {
                    Some(m) => {
                        least = m;
                    },
                    None => {},
                },
                None => {},
            }
        }
        i = i + 1;
    }
    least
}

/// The commands.
#[derive(Clone, Copy, Debug, PartialEq, Eq, Structural)]
pub enum Command {
    Run,
    Prepare,
    Inpaint,
    ReviewLama,
    OverwriteReview,
    Cleanup,
    Profiles,
    Match,
    MatchProfile,
    LearnPair,
    LearnSolid,
    LearnMine,
    LearnAuto,
    LearnBatch,
    Unknown,
}

/// The command with this name.
pub open spec fn command_named(name: Seq<char>) -> Command {
    if name == "run"@ {
        Command::Run
    } else if name == "prepare"@ {
        Command::Prepare
    } else if name == "inpaint"@ {
        Command::Inpaint
    } else if name == "review-lama"@ {
        Command::ReviewLama
    } else if name == "overwrite-review"@ {
        Command::OverwriteReview
    } else if name == "cleanup"@ {
        Command::Cleanup
    } else if name == "profiles"@ || name == "list-profiles"@ {
        Command::Profiles
    } else if name == "match"@ {
        Command::Match
    } else if name == "match-profile"@ {
        Command::MatchProfile
    } else if name == "learn-pair"@ {
        Command::LearnPair
    } else if name == "learn-solid"@ {
        Command::LearnSolid
    } else if name == "learn-mine"@ {
        Command::LearnMine
    } else if name == "learn-auto"@ {
        Command::LearnAuto
    } else if name == "learn-batch"@ {
        Command::LearnBatch
    } else {
        Command::Unknown
    }
}

pub fn command_of(name: &str) -> (r: Command)
    ensures
        r == command_named(name@),
{
    let chars = chars_of(name);
    let s = chars.as_slice();
    if is(s, "run") {
        Command::Run
    } else if is(s, "prepare") {
        Command::Prepare
    } else if is(s, "inpaint") {
        Command::Inpaint
    } else if is(s, "review-lama") {
        Command::ReviewLama
    } else if is(s, "overwrite-review") {
        Command::OverwriteReview
    } else if is(s, "cleanup") {
        Command::Cleanup
    } else if is(s, "profiles") || is(s, "list-profiles") {
        Command::Profiles
    } else if is(s, "match") {
        Command::Match
    } else if is(s, "match-profile") {
        Command::MatchProfile
    } else if is(s, "learn-pair") {
        Command::LearnPair
    } else if is(s, "learn-solid") {
        Command::LearnSolid
    } else if is(s, "learn-mine") {
        Command::LearnMine
    } else if is(s, "learn-auto") {
        Command::LearnAuto
    } else if is(s, "learn-batch") {
        Command::LearnBatch
    } else {
        Command::Unknown
    }
}

/// How many files a command needs at least.
pub open spec fn files_needed(command: Command) -> int {
    match command {
        Command::Match => 1,
        Command::MatchProfile => 2,
        Command::LearnPair => 2,
        Command::LearnSolid => 1,
        Command::LearnMine => 1,
        Command::LearnAuto => 1,
        Command::LearnBatch => 1,
        _ => 0,
    }
}

/// What a command with too few files says.
pub open spec fn usage_of(command: Command) -> Seq<char> {
    match command {
        Command::Match => "match needs an image path"@,
        Command::MatchProfile => "match-profile needs <id> <image>"@,
        Command::LearnPair => "learn-pair needs <black.png> <white.png> [--label X]"@,
        Command::LearnSolid =>
            "learn-solid needs <image> --label X [--bg r,g,b] [--color r,g,b]"@,
        Command::LearnMine => "learn-mine needs <dir|images...> [--label-prefix X]"@,
        Command::LearnAuto => "learn-auto needs <images...> --label X"@,
        Command::LearnBatch => "learn-batch needs <images...> --label X"@,
        _ => ""@,
    }
}

/// Whether a command has the files it needs, or else what it says.
pub fn run_profile_command(command: Command, files: usize) -> (r: Result<(), String>)
    ensures
        if files < files_needed(command) {
            fails_with(r, usage_of(command))
        } else {
            r is Ok
        },
{
    let (needed, usage): (usize, &str) = match command {
        Command::Match => (1, "match needs an image path"),
        Command::MatchProfile => (2, "match-profile needs <id> <image>"),
        Command::LearnPair => (2, "learn-pair needs <black.png> <white.png> [--label X]"),
        Command::LearnSolid => (
            1,
            "learn-solid needs <image> --label X [--bg r,g,b] [--color r,g,b]",
        ),
        Command::LearnMine => (1, "learn-mine needs <dir|images...> [--label-prefix X]"),
        Command::LearnAuto => (1, "learn-auto needs <images...> --label X"),
        Command::LearnBatch => (1, "learn-batch needs <images...> --label X"),
        _ => (0, ""),
    };
    if files < needed {
        Err(String::from_str(usage))
    } else {
        Ok(())
    }
}

/// The least part of a mark and the largest residual that a learning command
/// accepts: 24 pixels, and 6 for a pair, else 12.
pub open spec fn limits_of(command: Command) -> (int, Number) {
    (
        24,
        Number::spec_int(
            if command == Command::LearnPair {
                6
            } else {
                12
            },
        ),
    )
}

/// The limits of a learning command.
pub fn learn_limits(command: Command) -> (r: (usize, Number))
    ensures
        (r.0 as int, r.1) == limits_of(command),
{
    if command == Command::LearnPair {
        (24, Number::from_int(6))
    } else {
        (24, Number::from_int(12))
    }
}

/// The least coverage and the least contrast of a picture that is learned from
/// without being chosen: 0.01 and 60.
pub fn frame_limits() -> (r: (Number, Number))
    ensures
        r.0 == Number::spec_ratio(1, 100),
        r.1 == Number::spec_int(60),
{
    (Number::decimal(1, 100), Number::from_int(60))
}

/// The exit code of a learning command: zero if a mark was learned and saved.
pub fn learn_exit(learned: bool, saved: bool) -> (r: i32)
    ensures
        r == if learned && saved {
            0i32
        } else {
            1i32
        },
{
    if learned && saved {
        0
    } else {
        1
    }
}

/// The label of what a command learns when none is given.
pub fn default_label(command: Command) -> (r: String)
    ensures
        r@ == if command == Command::LearnMine {
            "mined"@
        } else {
            "learned"@
        },
{
    if command == Command::LearnMine {
        String::from_str("mined")
    } else {
        String::from_str("learned")
    }
}

/// The options are those that the items set, for these files in this folder.
pub open spec fn follows(o: PipelineOptions, items: Seq<ItemView>, root: Seq<char>, files: Seq<Seq<char>>) -> bool {
    &&& o.root@ == root
    &&& texts(o.files@) == files
    &&& o.keep_work == is_set(items, Key::KeepWork)
    &&& o.mask_box == last_box_of(items, Key::MaskBox)
    &&& o.any_position == is_set(items, Key::AnyPosition)
    &&& o.overwrite_original == is_set(items, Key::Overwrite)
    &&& o.use_profile == !is_set(items, Key::NoProfile)
    &&& o.force == is_set(items, Key::Force)
    &&& o.inverse == !is_set(items, Key::NoInverse)
    &&& o.retry == !is_set(items, Key::NoRetry)
    &&& o.refine == is_set(items, Key::Refine)
    &&& value_view(o.forced_profile) == last_of(items, Key::Profile)
    &&& o.output_dir_override is None
}

/// The options that the items set.
pub fn options_of(items: &[Item], root: String, files: Vec<String>) -> (r: PipelineOptions)
    ensures
        follows(r, item_views(items@), root@, texts(files@)),
{
    PipelineOptions {
        root,
        files,
        keep_work: has_key(items, Key::KeepWork),
        mask_box: last_box(items, Key::MaskBox),
        any_position: has_key(items, Key::AnyPosition),
        overwrite_original: has_key(items, Key::Overwrite),
        use_profile: !has_key(items, Key::NoProfile),
        force: has_key(items, Key::Force),
        inverse: !has_key(items, Key::NoInverse),
        retry: !has_key(items, Key::NoRetry),
        refine: has_key(items, Key::Refine),
        forced_profile: last_value(items, Key::Profile),
        output_dir_override: None,
    }
}

/// An extension in lower case that pictures have.
pub open spec fn is_picture_extension(e: Seq<char>) -> bool {
    e == "png"@ || e == "jpg"@ || e == "jpeg"@ || e == "bmp"@ || e == "webp"@ || e == "tif"@ || e
        == "tiff"@
}

/// Whether an extension is that of a picture, in upper or lower case.
pub fn is_image_path(extension: Option<&str>) -> (r: bool)
    ensures
        r == match extension {
            Some(e) => is_picture_extension(ascii_lowered(e@)),
            None => false,
        },
{
    match extension {
        None => false,
        Some(e) => {
            let chars = chars_of(e);
            let lower = lower_ascii(chars.as_slice());
            let s = lower.as_slice();
            is(s, "png") || is(s, "jpg") || is(s, "jpeg") || is(s, "bmp") || is(s, "webp") || is(
                s,
                "tif",
            ) || is(s, "tiff")
        },
    }
}

/// An option whose value follows its equals sign reads like one whose value is
/// the next argument.
pub proof fn lemma_inline_is_next(arg: Seq<char>, rest: Seq<Seq<char>>)
    requires
        takes_value(key_of(name_in(arg))),
        inline_value(arg) is Some,
    ensures
        items_in(seq![arg] + rest) == items_in(
            seq![name_in(arg), inline_value(arg).unwrap()] + rest,
        ),
{
    let (name, value) = (name_in(arg), inline_value(arg).unwrap());
    let a = seq![arg] + rest;
    let b = seq![name, value] + rest;
    lemma_equals_at(arg);
    lemma_equals_at(name);
    assert(equals_at(name) == name.len()) by {
        if equals_at(name) < name.len() {
            assert(name[equals_at(name)] == arg[equals_at(name)]);
        }
    }
    assert(name_in(name) =~= name);
    assert(a[0] == arg && b[0] == name && b[1] == value);
    assert(a.skip(1) =~= rest);
    assert(b.skip(2) =~= rest);
    assert(takes_value(key_of(name)));
    assert(key_of(name) != Key::Word);
}

} // verus!
