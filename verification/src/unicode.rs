//! Unicode character classification and case mapping.
//!
//! The pipeline classifies word characters with `char::is_alphanumeric`,
//! recognises whitespace after an episode marker with
//! `char::is_whitespace`, and cases title words with `char::to_uppercase`
//! and `char::to_lowercase` (applied character by character). On ASCII all
//! four agree with the tables in [`crate::chars`], and the specifications
//! below say so definitionally; beyond ASCII each result is a named
//! function of the character alone, supplied by the trusted wrappers.

use vstd::prelude::*;

use crate::chars::{is_alnum, is_space, lower, upper};

verus! {

/// A character in the ASCII range.
pub open spec fn is_ascii_char(c: char) -> bool {
    (c as u32) < 128
}

/// Every character of `s` is ASCII.
pub open spec fn ascii_text(s: Seq<char>) -> bool {
    forall|k: int| 0 <= k < s.len() ==> is_ascii_char(#[trigger] s[k])
}

pub uninterp spec fn alnum_ext(c: char) -> bool;

pub uninterp spec fn space_ext(c: char) -> bool;

pub uninterp spec fn upper_ext(c: char) -> Seq<char>;

pub uninterp spec fn lower_ext(c: char) -> Seq<char>;

/// A word character: on ASCII exactly the letters and digits; beyond
/// ASCII whatever `char::is_alphanumeric` holds.
pub open spec fn is_word_char(c: char) -> bool {
    if is_ascii_char(c) {
        is_alnum(c)
    } else {
        alnum_ext(c)
    }
}

/// A whitespace character: on ASCII exactly the six ASCII whitespace
/// characters; beyond ASCII whatever `char::is_whitespace` holds.
pub open spec fn is_space_char(c: char) -> bool {
    if is_ascii_char(c) {
        is_space(c)
    } else {
        space_ext(c)
    }
}

/// The uppercase mapping of one character, possibly several characters
/// long: on ASCII the single-character ASCII mapping; beyond ASCII
/// whatever `char::to_uppercase` yields.
pub open spec fn upper_c(c: char) -> Seq<char> {
    if is_ascii_char(c) {
        seq![upper(c)]
    } else {
        upper_ext(c)
    }
}

/// The lowercase mapping of one character, possibly several characters
/// long: on ASCII the single-character ASCII mapping; beyond ASCII
/// whatever `char::to_lowercase` yields.
pub open spec fn lower_c(c: char) -> Seq<char> {
    if is_ascii_char(c) {
        seq![lower(c)]
    } else {
        lower_ext(c)
    }
}

/// Relies on `char::is_alphanumeric`: a function of the character alone,
/// true of exactly the ASCII letters and digits within ASCII.
#[verifier::external_body]
pub(crate) fn is_word_char_exec(c: char) -> (r: bool)
    ensures
        r == is_word_char(c),
        !is_ascii_char(c) ==> r == alnum_ext(c),
{
    c.is_alphanumeric()
}

/// Relies on `char::is_whitespace`: a function of the character alone,
/// true of exactly space, tab, line feed, vertical tab, form feed and
/// carriage return within ASCII.
#[verifier::external_body]
pub(crate) fn is_space_char_exec(c: char) -> (r: bool)
    ensures
        r == is_space_char(c),
        !is_ascii_char(c) ==> r == space_ext(c),
{
    c.is_whitespace()
}

/// Relies on `char::to_uppercase`: a function of the character alone,
/// the single ASCII uppercase equivalent within ASCII.
#[verifier::external_body]
pub(crate) fn upper_char_exec(c: char) -> (r: String)
    ensures
        r@ == upper_c(c),
        !is_ascii_char(c) ==> r@ == upper_ext(c),
{
    c.to_uppercase().collect()
}

/// Relies on `char::to_lowercase`: a function of the character alone,
/// the single ASCII lowercase equivalent within ASCII.
#[verifier::external_body]
pub(crate) fn lower_char_exec(c: char) -> (r: String)
    ensures
        r@ == lower_c(c),
        !is_ascii_char(c) ==> r@ == lower_ext(c),
{
    c.to_lowercase().collect()
}

} // verus!
