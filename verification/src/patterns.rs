//! What texts are searched for by regular expressions.

use crate::chars::{is_ascii_char, is_digit};
use crate::sentinels::{bounds_ok, bounds_view};
use crate::textutil::ascii_letter;
use regex::Regex;
use vstd::prelude::*;

verus! {

/// An English reference to a place in a legal text. Its group is the number of the place.
pub const EN_LEGAL_REF: &'static str =
    r"(?i)\b(?:section|article|clause|paragraph|schedule|sec|art|cl|para|sch)\.?\s+(\d+(?:[.,]\d+)*(?:-\d+(?:[.,]\d+)*)?(?:\([A-Za-z0-9]+\))+|\d+(?:[.,]\d+)*(?:-\d+(?:[.,]\d+)*)?\b|[IVXLCDM]{1,8}\b)";

/// What may be the number of a place in a legal text. Its group is the number.
pub const LEGAL_ID: &'static str =
    r"\b(\d+(?:[.,]\d+)*(?:-\d+(?:[.,]\d+)*)?(?:\([A-Za-z0-9]+\))+|\d+(?:[.,]\d+)*(?:-\d+(?:[.,]\d+)*)?\b|[IVXLCDM]{1,8}\b)";

/// A word of capitals. Its group is the word.
pub const ACRONYM: &'static str = r"\b([A-Z]{2,10})\b";

/// Whether a pattern is one of those above, which have a group.
pub open spec fn known_pattern(p: Seq<char>) -> bool {
    p == EN_LEGAL_REF@ || p == LEGAL_ID@ || p == ACRONYM@
}

/// What the first group of a pattern takes in at each of its matches in a text.
pub uninterp spec fn captured(pattern: Seq<char>, text: Seq<char>) -> Seq<Seq<char>>;

/// `regex::Regex::captures_iter`: the first group of each match, in their order.
#[verifier::external_body]
pub(crate) fn captures(pattern: &str, text: &str) -> (r: Vec<String>)
    requires
        known_pattern(pattern@),
    ensures
        r.deep_view() == captured(pattern@, text@),
{
    let re = Regex::new(pattern).unwrap();
    re.captures_iter(text).map(|c| c[1].to_string()).collect()
}

/// What a plain text is searched for when it is frozen, in the order of the alternatives: trademarks,
/// other scripts, addresses, paths, placeholders, structured identifiers, leaders and variables.
pub const FREEZE: &'static str =
    r#"([\p{L}\p{N}]{2,24}[\u00AE\u2122\u00A9]|[\u0900-\u097F\u0980-\u09FF\u0600-\u06FF\u0400-\u04FF\u0370-\u03FF\u0590-\u05FF\u0E00-\u0E7F\uAC00-\uD7AF\u3040-\u309F\u30A0-\u30FF]+|https?://[^\s<>()]+|[A-Za-z0-9._%+\-]+@[A-Za-z0-9.\-]+\.[A-Za-z]{2,}|(?:[A-Za-z]:\\(?:[^\\/:*?"<>|\r\n]+\\)*[^\\/:*?"<>|\r\n]*)|(?:\{[^{}\r\n]{1,100}\}|\$\{[^{}\r\n]{1,100}\})|%\d+|(?:\b\d+(?:[.,]\d+)+(?:-\d+(?:[.,]\d+)*)?(?:\([A-Za-z0-9]+\))*\b|\b\d+(?:-\d+)+(?:\([A-Za-z0-9]+\))*\b|\b\d+\([A-Za-z0-9]+\)(?:\([A-Za-z0-9]+\))*\b|\b[IVXLCDM]{1,8}\b)|\(\d{1,3}\)|\((?:[ivxlcdmIVXLCDM]{1,6})\)|\([A-Za-z]\)|[.\u2026]{8,}|_{5,}|[-\u2010\u2011\u2012\u2013\u2014\u2015\u2212]{5,}|\b[XYZ]\b)"#;

/// The bounds of the matches of a pattern in a text, counted in characters.
pub uninterp spec fn found(pattern: Seq<char>, text: Seq<char>) -> Seq<(int, int)>;

/// `regex::Regex::find_iter`: the bounds of the matches, counted in characters. They are in order,
/// without overlap, not empty, and within the text.
#[verifier::external_body]
pub(crate) fn find_all(pattern: &str, text: &str) -> (r: Vec<(usize, usize)>)
    requires
        pattern@ == FREEZE@,
    ensures
        bounds_view(r@) == found(pattern@, text@),
        bounds_ok(bounds_view(r@), 0, text@.len() as int),
{
    let chars = |n: usize| text[..n].chars().count();
    let re = Regex::new(pattern).unwrap();
    re.find_iter(text).map(|m| (chars(m.start()), chars(m.end()))).collect()
}

/// A text that is one decimal digit of some script.
pub const DIGIT: &'static str = r"^\d$";

/// A letter of some script.
pub const LETTER: &'static str = r"\p{L}";

/// Whether a pattern matches somewhere in a text.
pub uninterp spec fn matched(pattern: Seq<char>, text: Seq<char>) -> bool;

/// Whether one of the characters of a text is a letter, of which `A` to `Z` and `a` to `z` are the
/// ASCII ones.
pub open spec fn some_letter(text: Seq<char>) -> bool {
    exists|i: int|
        0 <= i < text.len() && if is_ascii_char(#[trigger] text[i]) {
            ascii_letter(text[i])
        } else {
            matched(LETTER@, text.subrange(i, i + 1))
        }
}

/// `regex::Regex::is_match`. Of the ASCII characters `0` to `9` are digits. A text holds a letter
/// where one of its characters is one.
#[verifier::external_body]
pub(crate) fn is_match(pattern: &str, text: &str) -> (r: bool)
    requires
        pattern@ == DIGIT@ || pattern@ == LETTER@,
    ensures
        r == matched(pattern@, text@),
        pattern@ == DIGIT@ && text@.len() == 1 && is_ascii_char(text@[0]) ==> r == is_digit(text@[0]),
        pattern@ == LETTER@ ==> r == some_letter(text@),
{
    Regex::new(pattern).unwrap().is_match(text)
}

} // verus!
