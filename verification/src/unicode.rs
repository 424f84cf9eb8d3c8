//! Character helpers: apostrophes, boundaries, vowels, case mapping.
//!
//! The Unicode character classes (uppercase, whitespace, and so on) come
//! from `std`'s character tables through trusted wrappers; each table is
//! named by an uninterpreted spec function, since the mapping depends on
//! the character alone.

use vstd::prelude::*;

verus! {

/// Check if a character is an apostrophe.
///
/// Unicode has several different apostrophes:
///  - `U+0027` (ASCII APOSTROPHE)
///  - `U+02BC` (MODIFIER LETTER APOSTROPHE)
///  - `U+2019` (RIGHT SINGLE QUOTATION MARK)
///  - `U+FF07` (FULLWIDTH APOSTROPHE)
pub open spec fn spec_is_apostrophe(c: char) -> bool {
    c == '\u{0027}' || c == '\u{02BC}' || c == '\u{2019}' || c == '\u{FF07}'
}

/// Check if a character is an apostrophe (any of the four Unicode forms).
pub fn is_apostrophe(c: char) -> (r: bool)
    ensures
        r == spec_is_apostrophe(c),
{
    c == '\u{0027}' || c == '\u{02BC}' || c == '\u{2019}' || c == '\u{FF07}'
}

/// Whether `std` counts the character as uppercase.
pub uninterp spec fn upper_char(c: char) -> bool;

/// Relies on char::is_uppercase: the result depends on the character alone.
#[verifier::external_body]
pub(crate) fn char_is_uppercase(c: char) -> (r: bool)
    ensures
        r == upper_char(c),
{
    c.is_uppercase()
}

/// Whether `std` counts the character as lowercase.
pub uninterp spec fn lower_char(c: char) -> bool;

/// Relies on char::is_lowercase: the result depends on the character alone.
#[verifier::external_body]
pub(crate) fn char_is_lowercase(c: char) -> (r: bool)
    ensures
        r == lower_char(c),
{
    c.is_lowercase()
}

/// Whether `std` counts the character as alphabetic.
pub uninterp spec fn alpha_char(c: char) -> bool;

/// Relies on char::is_alphabetic: the result depends on the character alone.
#[verifier::external_body]
pub(crate) fn char_is_alphabetic(c: char) -> (r: bool)
    ensures
        r == alpha_char(c),
{
    c.is_alphabetic()
}

/// Whether `std` counts the character as alphanumeric.
pub uninterp spec fn alnum_char(c: char) -> bool;

/// Relies on char::is_alphanumeric: the result depends on the character alone.
#[verifier::external_body]
pub(crate) fn char_is_alphanumeric(c: char) -> (r: bool)
    ensures
        r == alnum_char(c),
{
    c.is_alphanumeric()
}

/// Whether `std` counts the character as whitespace.
pub uninterp spec fn white_char(c: char) -> bool;

/// Relies on char::is_whitespace: the result depends on the character alone.
#[verifier::external_body]
pub(crate) fn char_is_whitespace(c: char) -> (r: bool)
    ensures
        r == white_char(c),
{
    c.is_whitespace()
}

/// Whether `std` counts the character as a control character.
pub uninterp spec fn control_char(c: char) -> bool;

/// Relies on char::is_control: the result depends on the character alone.
#[verifier::external_body]
pub(crate) fn char_is_control(c: char) -> (r: bool)
    ensures
        r == control_char(c),
{
    c.is_control()
}

/// The lowercase mapping of a character, as `std`'s tables give it.
pub uninterp spec fn lower_of(c: char) -> Seq<char>;

/// Relies on char::to_lowercase: the lowercase mapping depends on the
/// character alone and yields one or more characters.
#[verifier::external_body]
pub(crate) fn char_lowercase(c: char) -> (r: Vec<char>)
    ensures
        r@ == lower_of(c),
        r@.len() >= 1,
{
    c.to_lowercase().collect()
}

/// Relies on String::push: appends the given character to the string.
#[verifier::external_body]
pub(crate) fn push_char(s: &mut String, c: char)
    ensures
        final(s)@ == old(s)@.push(c),
{
    s.push(c);
}

/// Relies on char::from_u32: converts a code point to a character exactly
/// when the value is a Unicode scalar value.
#[verifier::external_body]
pub(crate) fn char_from_u32(u: u32) -> (r: Option<char>)
    ensures
        r is Some <==> vstd::utf8::is_scalar(u),
        r matches Some(c) ==> c as u32 == u,
{
    char::from_u32(u)
}

/// Check if a character is a word boundary: whitespace, a control
/// character, `U+200B` (zero-width space) or `U+FEFF` (byte-order mark).
pub open spec fn spec_is_boundary(c: char) -> bool {
    white_char(c) || control_char(c) || c == '\u{200B}' || c == '\u{FEFF}'
}

/// Check if a character is a word "boundary" (non-Symbol).
pub fn is_boundary(c: char) -> (r: bool)
    ensures
        r == spec_is_boundary(c),
{
    char_is_whitespace(c) || char_is_control(c) || c == '\u{200B}' || c == '\u{FEFF}'
}

/// Check if a (lowercase) character is a vowel.
pub open spec fn spec_is_vowel(c: char) -> bool {
    c == 'a' || c == 'e' || c == 'i' || c == 'o' || c == 'u' || c == 'y'
}

/// Check if a character is a vowel.
pub fn is_vowel(c: char) -> (r: bool)
    ensures
        r == spec_is_vowel(c),
{
    c == 'a' || c == 'e' || c == 'i' || c == 'o' || c == 'u' || c == 'y'
}

/// The "canonical" spelling of a character: every apostrophe form maps to
/// `U+2019`; all other characters are left alone.
pub open spec fn spec_canonical_char(c: char) -> Option<char> {
    if spec_is_apostrophe(c) {
        Some('\u{2019}')
    } else {
        None
    }
}

/// Make "canonical" English spelling of a character.
pub fn canonical_char(c: char) -> (r: Option<char>)
    ensures
        r == spec_canonical_char(c),
{
    if is_apostrophe(c) {
        Some('\u{2019}')
    } else {
        None
    }
}

/// ASCII lowercase of a character: `A`..`Z` map down, all else unchanged.
pub open spec fn spec_ascii_lower(c: char) -> char {
    if 'A' <= c && c <= 'Z' {
        ((c as u32) + 32) as char
    } else {
        c
    }
}

/// Lower an ASCII uppercase letter; leave any other character unchanged.
pub fn ascii_lower(c: char) -> (r: char)
    ensures
        r == spec_ascii_lower(c),
{
    if 'A' <= c && c <= 'Z' {
        let u: u32 = (c as u32) + 32;
        assert(vstd::utf8::is_scalar(u));
        match char_from_u32(u) {
            Some(l) => {
                proof {
                    vstd::utf8::char_u32_cast(l, u);
                }
                l
            },
            None => c,
        }
    } else {
        c
    }
}

/// Collect the characters of a string slice into a vector.
pub fn str_chars(s: &str) -> (v: Vec<char>)
    ensures
        v@ == s@,
{
    let n = s.unicode_len();
    let mut v: Vec<char> = Vec::new();
    let mut i: usize = 0;
    while i < n
        invariant
            i <= n,
            n == s@.len(),
            v@ == s@.take(i as int),
        decreases n - i,
    {
        let c = s.get_char(i);
        v.push(c);
        proof {
            assert(s@.take(i as int).push(s@[i as int]) =~= s@.take(i + 1 as int));
        }
        i = i + 1;
    }
    proof {
        assert(s@.take(n as int) =~= s@);
    }
    v
}

/// Collect a vector of characters into a `String`.
pub fn chars_str(v: &Vec<char>) -> (s: String)
    ensures
        s@ == v@,
{
    let mut s = String::new();
    let mut i: usize = 0;
    while i < v.len()
        invariant
            i <= v.len(),
            s@ == v@.take(i as int),
        decreases v.len() - i,
    {
        push_char(&mut s, v[i]);
        proof {
            assert(v@.take(i as int).push(v@[i as int]) =~= v@.take(i + 1 as int));
        }
        i = i + 1;
    }
    proof {
        assert(v@.take(v@.len() as int) =~= v@);
    }
    s
}

} // verus!
