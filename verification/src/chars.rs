//! Character-level rules shared by identifier validation, whitespace
//! trimming, and case normalization.

use vstd::prelude::*;

verus! {

/// Characters permitted in an identifier: ASCII letters, digits, underscore.
pub open spec fn is_name_char(c: char) -> bool {
    ('a' <= c <= 'z') || ('A' <= c <= 'Z') || ('0' <= c <= '9') || c == '_'
}

/// Whitespace stripped from the ends of a raw input line: the Unicode
/// characters with the White_Space property, as Rust's
/// `char::is_whitespace` recognizes them.
pub open spec fn is_space_char(c: char) -> bool {
    ('\t' <= c <= '\r')  // tab, line feed, vertical tab, form feed, carriage return
    || c == ' ' || c == '\u{85}' || c == '\u{a0}' || c == '\u{1680}'
    || ('\u{2000}' <= c <= '\u{200a}')  // the en-quad .. hair-space family
    || c == '\u{2028}' || c == '\u{2029}' || c == '\u{202f}' || c == '\u{205f}'
    || c == '\u{3000}'
}

/// An ASCII lower-case letter mapped to upper case; everything else unchanged.
pub open spec fn upper_char(c: char) -> char {
    if 'a' <= c <= 'z' {
        ((c as u8) - 0x20) as char
    } else {
        c
    }
}

/// An ASCII upper-case letter mapped to lower case; everything else unchanged.
pub open spec fn lower_char(c: char) -> char {
    if 'A' <= c <= 'Z' {
        ((c as u8) + 0x20) as char
    } else {
        c
    }
}

/// Executable test for [`is_name_char`].
pub fn check_name_char(c: char) -> (r: bool)
    ensures
        r == is_name_char(c),
{
    ('a' <= c && c <= 'z') || ('A' <= c && c <= 'Z') || ('0' <= c && c <= '9') || c == '_'
}

/// Executable test for [`is_space_char`].
pub fn check_space_char(c: char) -> (r: bool)
    ensures
        r == is_space_char(c),
{
    ('\t' <= c && c <= '\r') || c == ' ' || c == '\u{85}' || c == '\u{a0}' || c == '\u{1680}'
        || ('\u{2000}' <= c && c <= '\u{200a}') || c == '\u{2028}' || c == '\u{2029}'
        || c == '\u{202f}' || c == '\u{205f}' || c == '\u{3000}'
}

} // verus!
