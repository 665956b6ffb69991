//! Texts in two languages.

use crate::text::{chars_of, has_head, lowercase, starts_with, to_lowercase};
use vstd::prelude::*;

verus! {

/// The text for a language given in lower case: the Chinese one for `zh`, the
/// English one for any other.
pub fn tr_lower(lower: &str, zh: &str, en: &str) -> (r: String)
    ensures
        r@ == if has_head(lower@, "zh"@) {
            zh@
        } else {
            en@
        },
{
    let s = chars_of(lower);
    if starts_with(s.as_slice(), chars_of("zh").as_slice()) {
        zh.to_owned()
    } else {
        en.to_owned()
    }
}

/// The text for a language: the Chinese one for codes that start with `zh` in
/// upper or lower case, the English one for any other.
pub fn tr(lang: &str, zh: &str, en: &str) -> (r: String)
    ensures
        r@ == if has_head(lowercase(lang@), "zh"@) {
            zh@
        } else {
            en@
        },
{
    let lower = to_lowercase(lang);
    tr_lower(lower.as_str(), zh, en)
}

/// The language that was asked for, else Chinese.
pub fn load(lang: Option<String>) -> (r: String)
    ensures
        r@ == match lang {
            Some(v) => v@,
            None => "zh"@,
        },
{
    match lang {
        Some(v) => v,
        None => String::from_str("zh"),
    }
}

} // verus!
