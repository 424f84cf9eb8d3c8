//! Word kinds and the pure classifier from a word to its kind.

use vstd::prelude::*;
use crate::unicode::{
    alpha_char, char_is_alphabetic, char_is_lowercase, char_is_uppercase, is_apostrophe,
    lower_char, spec_is_apostrophe, str_chars, upper_char,
};

verus! {

/// Word kind.
#[derive(Clone, Copy, Debug, Eq, PartialEq, Hash, Structural)]
pub enum Kind {
    /// In Lexicon
    Lexicon,
    /// Foreign (non-English)
    Foreign,
    /// Ordinal number
    Ordinal,
    /// Roman numeral
    Roman,
    /// Number (may hold letters)
    Number,
    /// Acronym / Initialism
    Acronym,
    /// Proper noun (name)
    Proper,
    /// Symbol or letter (punctuation, etc.)
    Symbol,
    /// Unknown / Other
    Unknown,
}

impl Kind {
    /// The position of the kind in the fixed order of all kinds.
    pub open spec fn rank(self) -> int {
        match self {
            Kind::Lexicon => 0,
            Kind::Foreign => 1,
            Kind::Ordinal => 2,
            Kind::Roman => 3,
            Kind::Number => 4,
            Kind::Acronym => 5,
            Kind::Proper => 6,
            Kind::Symbol => 7,
            Kind::Unknown => 8,
        }
    }

    /// Get all word kinds, in order.
    pub fn all() -> (r: Vec<Kind>)
        ensures
            r@ == seq![
                Kind::Lexicon,
                Kind::Foreign,
                Kind::Ordinal,
                Kind::Roman,
                Kind::Number,
                Kind::Acronym,
                Kind::Proper,
                Kind::Symbol,
                Kind::Unknown,
            ],
    {
        let r: Vec<Kind> = vec![
            Kind::Lexicon,
            Kind::Foreign,
            Kind::Ordinal,
            Kind::Roman,
            Kind::Number,
            Kind::Acronym,
            Kind::Proper,
            Kind::Symbol,
            Kind::Unknown,
        ];
        proof {
            assert(r@ =~= seq![
                Kind::Lexicon,
                Kind::Foreign,
                Kind::Ordinal,
                Kind::Roman,
                Kind::Number,
                Kind::Acronym,
                Kind::Proper,
                Kind::Symbol,
                Kind::Unknown,
            ]);
        }
        r
    }

    /// The single-letter code of a kind.
    pub open spec fn spec_code(self) -> char {
        match self {
            Kind::Lexicon => 'l',
            Kind::Foreign => 'f',
            Kind::Ordinal => 'o',
            Kind::Roman => 'r',
            Kind::Number => 'n',
            Kind::Acronym => 'a',
            Kind::Proper => 'p',
            Kind::Symbol => 's',
            Kind::Unknown => 'u',
        }
    }

    /// Get the single-letter code.
    pub fn code(self) -> (r: char)
        ensures
            r == self.spec_code(),
    {
        match self {
            Kind::Lexicon => 'l',
            Kind::Foreign => 'f',
            Kind::Ordinal => 'o',
            Kind::Roman => 'r',
            Kind::Number => 'n',
            Kind::Acronym => 'a',
            Kind::Proper => 'p',
            Kind::Symbol => 's',
            Kind::Unknown => 'u',
        }
    }

    /// The kind of a word that is not in the lexicon, by the classifier
    /// rules, evaluated in order with the first match winning.
    pub open spec fn spec_of(w: Seq<char>) -> Kind {
        if spec_is_foreign(w) {
            Kind::Foreign
        } else if spec_is_ordinal_number(w) {
            Kind::Ordinal
        } else if spec_is_roman_numeral(w) {
            Kind::Roman
        } else if spec_is_number(w) {
            Kind::Number
        } else if spec_is_acronym(w) {
            Kind::Acronym
        } else if spec_is_probably_proper(w) {
            Kind::Proper
        } else if w.len() == 1 {
            Kind::Symbol
        } else {
            Kind::Unknown
        }
    }

    /// Classify a word (assumed not to be in the lexicon).
    pub fn from_word(word: &str) -> (r: Kind)
        ensures
            r == Kind::spec_of(word@),
    {
        let w = str_chars(word);
        Kind::of_chars(&w)
    }

    /// Classify a word given as characters.
    pub(crate) fn of_chars(w: &Vec<char>) -> (r: Kind)
        ensures
            r == Kind::spec_of(w@),
    {
        if is_foreign(w) {
            Kind::Foreign
        } else if is_ordinal_number(w) {
            Kind::Ordinal
        } else if is_roman_numeral(w) {
            Kind::Roman
        } else if is_number(w) {
            Kind::Number
        } else if is_acronym(w) {
            Kind::Acronym
        } else if is_probably_proper(w) {
            Kind::Proper
        } else if w.len() == 1 {
            Kind::Symbol
        } else {
            Kind::Unknown
        }
    }
}

/// A word with its leading whitespace stripped.
pub open spec fn spec_trim_start(s: Seq<char>) -> Seq<char>
    decreases s.len(),
{
    if s.len() > 0 && crate::unicode::white_char(s[0]) {
        spec_trim_start(s.skip(1))
    } else {
        s
    }
}

/// A word with its trailing whitespace stripped.
pub open spec fn spec_trim_end(s: Seq<char>) -> Seq<char>
    decreases s.len(),
{
    if s.len() > 0 && crate::unicode::white_char(s.last()) {
        spec_trim_end(s.drop_last())
    } else {
        s
    }
}

/// A word with surrounding whitespace stripped.
pub open spec fn spec_trim(s: Seq<char>) -> Seq<char> {
    spec_trim_end(spec_trim_start(s))
}

/// Strip surrounding whitespace from a word.
fn trim_chars(s: &Vec<char>) -> (r: Vec<char>)
    ensures
        r@ == spec_trim(s@),
{
    let mut lo: usize = 0;
    proof {
        assert(s@.skip(0) =~= s@);
    }
    while lo < s.len() && crate::unicode::char_is_whitespace(s[lo])
        invariant
            lo <= s@.len(),
            spec_trim_start(s@) == spec_trim_start(s@.skip(lo as int)),
        decreases s@.len() - lo,
    {
        proof {
            assert(s@.skip(lo as int)[0] == s@[lo as int]);
            assert(s@.skip(lo as int).skip(1) =~= s@.skip(lo + 1 as int));
        }
        lo = lo + 1;
    }
    let ghost ts = spec_trim_start(s@);
    proof {
        if lo < s@.len() {
            assert(s@.skip(lo as int)[0] == s@[lo as int]);
        }
        assert(ts == s@.skip(lo as int));
    }
    let mut hi: usize = s.len();
    while hi > lo && crate::unicode::char_is_whitespace(s[hi - 1])
        invariant
            lo <= hi <= s@.len(),
            ts == s@.skip(lo as int),
            spec_trim_end(ts) == spec_trim_end(s@.subrange(lo as int, hi as int)),
        decreases hi,
    {
        proof {
            assert(s@.subrange(lo as int, hi as int).last() == s@[hi - 1]);
            assert(s@.subrange(lo as int, hi as int).drop_last() =~= s@.subrange(
                lo as int,
                hi - 1 as int,
            ));
        }
        hi = hi - 1;
    }
    proof {
        let cur = s@.subrange(lo as int, hi as int);
        if hi > lo {
            assert(cur.last() == s@[hi - 1]);
        }
        assert(spec_trim_end(cur) == cur);
    }
    let mut r: Vec<char> = Vec::new();
    let mut i: usize = lo;
    while i < hi
        invariant
            lo <= i <= hi <= s@.len(),
            r@ == s@.subrange(lo as int, i as int),
        decreases hi - i,
    {
        proof {
            assert(s@.subrange(lo as int, i as int).push(s@[i as int]) =~= s@.subrange(
                lo as int,
                i + 1 as int,
            ));
        }
        r.push(s[i]);
        i = i + 1;
    }
    proof {
        assert(s@.skip(lo as int).subrange(0, hi - lo) =~= s@.subrange(lo as int, hi as int));
    }
    r
}

/// The kind a single-letter code names, if any.
pub open spec fn spec_kind_code(t: Seq<char>) -> Option<Kind> {
    if t == seq!['l'] {
        Some(Kind::Lexicon)
    } else if t == seq!['f'] {
        Some(Kind::Foreign)
    } else if t == seq!['o'] {
        Some(Kind::Ordinal)
    } else if t == seq!['r'] {
        Some(Kind::Roman)
    } else if t == seq!['n'] {
        Some(Kind::Number)
    } else if t == seq!['a'] {
        Some(Kind::Acronym)
    } else if t == seq!['p'] {
        Some(Kind::Proper)
    } else if t == seq!['s'] {
        Some(Kind::Symbol)
    } else if t == seq!['u'] {
        Some(Kind::Unknown)
    } else {
        None
    }
}

/// All nine kinds, in order.
pub open spec fn spec_all_kinds() -> Seq<Kind> {
    seq![
        Kind::Lexicon,
        Kind::Foreign,
        Kind::Ordinal,
        Kind::Roman,
        Kind::Number,
        Kind::Acronym,
        Kind::Proper,
        Kind::Symbol,
        Kind::Unknown,
    ]
}

/// The kinds a comma-separated list of codes names: `A` anywhere gives
/// all kinds; an unknown code before any `A` gives nothing.
pub open spec fn spec_parse_kinds_from(fields: Seq<Seq<char>>, acc: Seq<Kind>) -> Option<
    Seq<Kind>,
>
    decreases fields.len(),
{
    if fields.len() == 0 {
        Some(acc)
    } else {
        let t = spec_trim(fields[0]);
        if t == seq!['A'] {
            Some(spec_all_kinds())
        } else {
            match spec_kind_code(t) {
                None => None,
                Some(k) => spec_parse_kinds_from(fields.skip(1), acc.push(k)),
            }
        }
    }
}

/// The kinds a comma-separated list of codes names.
pub open spec fn spec_parse_kinds(s: Seq<char>) -> Option<Seq<Kind>> {
    spec_parse_kinds_from(crate::word::spec_split_char(s, ','), Seq::empty())
}

/// Parse a comma-separated list of kind codes: each code names its
/// kind, `A` names all kinds, anything else fails.
pub fn parse_kinds(knd: &str) -> (r: Option<Vec<Kind>>)
    ensures
        r is Some <==> spec_parse_kinds(knd@) is Some,
        r matches Some(v) ==> Some(v@) == spec_parse_kinds(knd@),
{
    let chars = str_chars(knd);
    let fields = crate::word::split_char(&chars, ',');
    let mut acc: Vec<Kind> = Vec::new();
    let mut i: usize = 0;
    let ghost fviews = crate::word::seq_views(fields@);
    proof {
        assert(fviews.skip(0) =~= fviews);
        assert(acc@ =~= Seq::<Kind>::empty());
    }
    while i < fields.len()
        invariant
            i <= fields@.len(),
            fviews == crate::word::seq_views(fields@),
            spec_parse_kinds(knd@) == spec_parse_kinds_from(fviews.skip(i as int), acc@),
        decreases fields@.len() - i,
    {
        let t = trim_chars(&fields[i]);
        proof {
            assert(fviews.skip(i as int)[0] == fields@[i as int]@);
            assert(fviews.skip(i as int).skip(1) =~= fviews.skip(i + 1 as int));
            if t@.len() == 1 {
                assert(t@ =~= seq![t@[0]]);
            }
        }
        if t.len() == 1 && t[0] == 'A' {
            return Some(Kind::all());
        }
        let k = if t.len() == 1 {
            match t[0] {
                'l' => Some(Kind::Lexicon),
                'f' => Some(Kind::Foreign),
                'o' => Some(Kind::Ordinal),
                'r' => Some(Kind::Roman),
                'n' => Some(Kind::Number),
                'a' => Some(Kind::Acronym),
                'p' => Some(Kind::Proper),
                's' => Some(Kind::Symbol),
                'u' => Some(Kind::Unknown),
                _ => None,
            }
        } else {
            None
        };
        match k {
            Some(k) => {
                acc.push(k);
            },
            None => {
                return None;
            },
        }
        i = i + 1;
    }
    proof {
        assert(fviews.skip(fviews.len() as int) =~= Seq::<Seq<char>>::empty());
    }
    Some(acc)
}

/// Whether the character is ASCII.
pub open spec fn spec_is_ascii_char(c: char) -> bool {
    (c as u32) < 128
}

/// Whether the character is an ASCII digit.
pub open spec fn spec_is_ascii_digit(c: char) -> bool {
    '0' <= c && c <= '9'
}

/// A word is foreign when some character is alphabetic, not ASCII, and
/// not an apostrophe.
pub open spec fn spec_is_foreign(w: Seq<char>) -> bool {
    exists|i: int|
        0 <= i < w.len() && alpha_char(#[trigger] w[i]) && !spec_is_ascii_char(w[i])
            && !spec_is_apostrophe(w[i])
}

/// Check if a word is foreign (not English).
fn is_foreign(w: &Vec<char>) -> (r: bool)
    ensures
        r == spec_is_foreign(w@),
{
    let mut i: usize = 0;
    while i < w.len()
        invariant
            i <= w.len(),
            forall|j: int|
                0 <= j < i ==> !(alpha_char(#[trigger] w@[j]) && !spec_is_ascii_char(w@[j])
                    && !spec_is_apostrophe(w@[j])),
        decreases w.len() - i,
    {
        let c = w[i];
        if char_is_alphabetic(c) && !((c as u32) < 128) && !is_apostrophe(c) {
            return true;
        }
        i = i + 1;
    }
    false
}

/// All characters of the word at positions `from..` are ASCII digits.
pub open spec fn spec_all_digits(w: Seq<char>) -> bool {
    forall|i: int| 0 <= i < w.len() ==> spec_is_ascii_digit(#[trigger] w[i])
}

/// A word is an ordinal number when it has at least three characters,
/// ends with one of the ordinal suffixes, and the rest is ASCII digits.
pub open spec fn spec_is_ordinal_number(w: Seq<char>) -> bool {
    w.len() >= 3 && {
        let n = w.len() as int;
        if w.subrange(n - 3, n) == seq!['1', 's', 't'] || w.subrange(n - 3, n) == seq![
            '1',
            'S',
            'T',
        ] || w.subrange(n - 3, n) == seq!['2', 'n', 'd'] || w.subrange(n - 3, n) == seq![
            '2',
            'N',
            'D',
        ] || w.subrange(n - 3, n) == seq!['3', 'r', 'd'] || w.subrange(n - 3, n) == seq![
            '3',
            'R',
            'D',
        ] {
            spec_all_digits(w.subrange(0, n - 3))
        } else if w.subrange(n - 2, n) == seq!['t', 'h'] || w.subrange(n - 2, n) == seq![
            'T',
            'H',
        ] {
            spec_all_digits(w.subrange(0, n - 2))
        } else {
            false
        }
    }
}

/// Check whether every character in `w[0..k]` is an ASCII digit.
fn all_digits_below(w: &Vec<char>, k: usize) -> (r: bool)
    requires
        k <= w@.len(),
    ensures
        r == spec_all_digits(w@.subrange(0, k as int)),
{
    let mut i: usize = 0;
    while i < k
        invariant
            i <= k <= w@.len(),
            forall|j: int| 0 <= j < i ==> spec_is_ascii_digit(#[trigger] w@[j]),
        decreases k - i,
    {
        let c = w[i];
        if !('0' <= c && c <= '9') {
            proof {
                assert(w@.subrange(0, k as int)[i as int] == w@[i as int]);
            }
            return false;
        }
        i = i + 1;
    }
    proof {
        assert forall|j: int| 0 <= j < k implies spec_is_ascii_digit(
            #[trigger] w@.subrange(0, k as int)[j],
        ) by {
            assert(w@.subrange(0, k as int)[j] == w@[j]);
        }
    }
    true
}

/// Check if a word is an ordinal number.
fn is_ordinal_number(w: &Vec<char>) -> (r: bool)
    ensures
        r == spec_is_ordinal_number(w@),
{
    let n = w.len();
    if n < 3 {
        return false;
    }
    let a = w[n - 3];
    let b = w[n - 2];
    let c = w[n - 1];
    proof {
        assert(w@.subrange(n - 3, n as int) =~= seq![w@[n - 3], w@[n - 2], w@[n - 1]]);
        assert(w@.subrange(n - 2, n as int) =~= seq![w@[n - 2], w@[n - 1]]);
    }
    if (a == '1' && b == 's' && c == 't') || (a == '1' && b == 'S' && c == 'T') || (a == '2' && b
        == 'n' && c == 'd') || (a == '2' && b == 'N' && c == 'D') || (a == '3' && b == 'r' && c
        == 'd') || (a == '3' && b == 'R' && c == 'D') {
        all_digits_below(w, n - 3)
    } else if (b == 't' && c == 'h') || (b == 'T' && c == 'H') {
        all_digits_below(w, n - 2)
    } else {
        false
    }
}

/// Whether the character is an uppercase roman numeral letter.
pub open spec fn spec_is_roman_upper(c: char) -> bool {
    c == 'I' || c == 'V' || c == 'X' || c == 'L' || c == 'C' || c == 'D' || c == 'M'
}

/// Whether the character is a lowercase roman numeral letter.
pub open spec fn spec_is_roman_lower(c: char) -> bool {
    c == 'i' || c == 'v' || c == 'x' || c == 'l' || c == 'c' || c == 'd' || c == 'm'
}

/// A word is a roman numeral when it is nonempty and all its characters
/// are uppercase roman letters, or all lowercase roman letters.
pub open spec fn spec_is_roman_numeral(w: Seq<char>) -> bool {
    w.len() > 0 && ((forall|i: int| 0 <= i < w.len() ==> spec_is_roman_upper(#[trigger] w[i]))
        || (forall|i: int| 0 <= i < w.len() ==> spec_is_roman_lower(#[trigger] w[i])))
}

/// Check if a word is a roman numeral.
fn is_roman_numeral(w: &Vec<char>) -> (r: bool)
    ensures
        r == spec_is_roman_numeral(w@),
{
    if w.len() == 0 {
        return false;
    }
    let mut all_upper = true;
    let mut all_lower = true;
    let mut i: usize = 0;
    while i < w.len()
        invariant
            i <= w.len(),
            all_upper == (forall|j: int| 0 <= j < i ==> spec_is_roman_upper(#[trigger] w@[j])),
            all_lower == (forall|j: int| 0 <= j < i ==> spec_is_roman_lower(#[trigger] w@[j])),
        decreases w.len() - i,
    {
        let c = w[i];
        let up = c == 'I' || c == 'V' || c == 'X' || c == 'L' || c == 'C' || c == 'D' || c == 'M';
        let lo = c == 'i' || c == 'v' || c == 'x' || c == 'l' || c == 'c' || c == 'd' || c == 'm';
        all_upper = all_upper && up;
        all_lower = all_lower && lo;
        i = i + 1;
    }
    all_upper || all_lower
}

/// A word counts as a number when any ASCII digit appears in it.
pub open spec fn spec_is_number(w: Seq<char>) -> bool {
    exists|i: int| 0 <= i < w.len() && spec_is_ascii_digit(#[trigger] w[i])
}

/// Check if a word contains a number.
fn is_number(w: &Vec<char>) -> (r: bool)
    ensures
        r == spec_is_number(w@),
{
    let mut i: usize = 0;
    while i < w.len()
        invariant
            i <= w.len(),
            forall|j: int| 0 <= j < i ==> !spec_is_ascii_digit(#[trigger] w@[j]),
        decreases w.len() - i,
    {
        let c = w[i];
        if '0' <= c && c <= '9' {
            return true;
        }
        i = i + 1;
    }
    false
}

/// A word is an acronym when it has at least two characters and every
/// character is uppercase or a dot.
pub open spec fn spec_is_acronym(w: Seq<char>) -> bool {
    w.len() >= 2 && forall|i: int| 0 <= i < w.len() ==> upper_char(#[trigger] w[i]) || w[i] == '.'
}

/// Check if a word is an acronym / initialism.
fn is_acronym(w: &Vec<char>) -> (r: bool)
    ensures
        r == spec_is_acronym(w@),
{
    if w.len() < 2 {
        return false;
    }
    let mut i: usize = 0;
    while i < w.len()
        invariant
            i <= w.len(),
            forall|j: int| 0 <= j < i ==> upper_char(#[trigger] w@[j]) || w@[j] == '.',
        decreases w.len() - i,
    {
        let c = w[i];
        if !(char_is_uppercase(c) || c == '.') {
            return false;
        }
        i = i + 1;
    }
    true
}

/// A word is probably proper when its first character is uppercase and
/// some later character is lowercase.
pub open spec fn spec_is_probably_proper(w: Seq<char>) -> bool {
    w.len() >= 1 && upper_char(w[0]) && exists|i: int| 1 <= i < w.len() && lower_char(
        #[trigger] w[i],
    )
}

/// Check if a word is probably proper.
fn is_probably_proper(w: &Vec<char>) -> (r: bool)
    ensures
        r == spec_is_probably_proper(w@),
{
    if w.len() == 0 {
        return false;
    }
    if !char_is_uppercase(w[0]) {
        return false;
    }
    let mut i: usize = 1;
    while i < w.len()
        invariant
            1 <= i <= w.len(),
            upper_char(w@[0]),
            forall|j: int| 1 <= j < i ==> !lower_char(#[trigger] w@[j]),
        decreases w.len() - i,
    {
        let c = w[i];
        if char_is_lowercase(c) {
            proof {
                assert(1 <= (i as int) && (i as int) < w@.len() && lower_char(w@[i as int]));
            }
            return true;
        }
        i = i + 1;
    }
    false
}

} // verus!
