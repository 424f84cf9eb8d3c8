//! Word classes, attributes, lexemes, and English morphology: regular
//! inflection rules and the suffix-delta encoding of irregular forms.

use vstd::prelude::*;
use crate::unicode::{chars_str, is_vowel, spec_is_vowel, str_chars};

verus! {

/// Copy a vector of characters.
pub(crate) fn copy_chars(w: &Vec<char>) -> (r: Vec<char>)
    ensures
        r@ == w@,
{
    let mut r: Vec<char> = Vec::new();
    let mut i: usize = 0;
    while i < w.len()
        invariant
            i <= w.len(),
            r@ == w@.take(i as int),
        decreases w.len() - i,
    {
        r.push(w[i]);
        proof {
            assert(w@.take(i as int).push(w@[i as int]) =~= w@.take(i + 1 as int));
        }
        i = i + 1;
    }
    proof {
        assert(w@.take(w@.len() as int) =~= w@);
    }
    r
}

/// The first `k` characters of a word.
pub(crate) fn take_prefix(w: &Vec<char>, k: usize) -> (r: Vec<char>)
    requires
        k <= w@.len(),
    ensures
        r@ == w@.take(k as int),
{
    let mut r: Vec<char> = Vec::new();
    let mut i: usize = 0;
    while i < k
        invariant
            i <= k <= w@.len(),
            r@ == w@.take(i as int),
        decreases k - i,
    {
        r.push(w[i]);
        proof {
            assert(w@.take(i as int).push(w@[i as int]) =~= w@.take(i + 1 as int));
        }
        i = i + 1;
    }
    r
}

/// A lemma ends in `y` when its last letter is `y` and the letter before
/// it (if any) is not a vowel: `try` qualifies, `play` does not.
pub open spec fn spec_ends_in_y(w: Seq<char>) -> bool {
    w.len() >= 1 && w.last() == 'y' && (w.len() == 1 || !spec_is_vowel(w[w.len() - 2]))
}

/// Check if a lemma word ends in `y` (with no other vowel).
pub(crate) fn ends_in_y(w: &Vec<char>) -> (r: bool)
    ensures
        r == spec_ends_in_y(w@),
{
    let n = w.len();
    n >= 1 && w[n - 1] == 'y' && (n == 1 || !is_vowel(w[n - 2]))
}

/// A lemma ends in (silent) `e` when its last letter is `e` and the
/// letter before it is none of `a`, `e`, `i`, `o`, `y`.
pub open spec fn spec_ends_in_e(w: Seq<char>) -> bool {
    w.len() >= 1 && w.last() == 'e' && (w.len() == 1 || {
        let p = w[w.len() - 2];
        p != 'a' && p != 'e' && p != 'i' && p != 'o' && p != 'y'
    })
}

/// Check if a lemma word ends in `e`.
pub(crate) fn ends_in_e(w: &Vec<char>) -> (r: bool)
    ensures
        r == spec_ends_in_e(w@),
{
    let n = w.len();
    n >= 1 && w[n - 1] == 'e' && (n == 1 || {
        let p = w[n - 2];
        p != 'a' && p != 'e' && p != 'i' && p != 'o' && p != 'y'
    })
}

/// The three-character window that the consonant-doubling rule slides
/// over the lemma, treating `qu` as a single consonant cluster.
pub open spec fn spec_cons_window(w: Seq<char>) -> (char, char, char)
    decreases w.len(),
{
    if w.len() == 0 {
        (' ', ' ', ' ')
    } else {
        let p = spec_cons_window(w.drop_last());
        if p.2 == 'q' && w.last() == 'u' {
            p
        } else {
            (p.1, p.2, w.last())
        }
    }
}

/// The final consonant to double, if any: the window must be
/// (consonant, vowel, consonant), the last character must not be `w` or
/// `x`, and the last two must not form `ed`, `en`, `er` or `on`.
/// This heuristic approximates the true rule, which depends on stress.
pub open spec fn spec_consonant_end_repeat(w: Seq<char>) -> Option<char> {
    let t = spec_cons_window(w);
    if t.2 == 'w' || t.2 == 'x' {
        None
    } else if (t.1 == 'e' && t.2 == 'd') || (t.1 == 'e' && t.2 == 'n') || (t.1 == 'e' && t.2
        == 'r') || (t.1 == 'o' && t.2 == 'n') {
        None
    } else if !spec_is_vowel(t.0) && spec_is_vowel(t.1) && !spec_is_vowel(t.2) {
        Some(t.2)
    } else {
        None
    }
}

/// Check if a word ends with a consonant which should repeat.
pub(crate) fn consonant_end_repeat(w: &Vec<char>) -> (r: Option<char>)
    ensures
        r == spec_consonant_end_repeat(w@),
{
    let mut a = ' ';
    let mut b = ' ';
    let mut c = ' ';
    let mut i: usize = 0;
    while i < w.len()
        invariant
            i <= w.len(),
            (a, b, c) == spec_cons_window(w@.take(i as int)),
        decreases w.len() - i,
    {
        let ch = w[i];
        proof {
            assert(w@.take(i + 1 as int).drop_last() =~= w@.take(i as int));
            assert(w@.take(i + 1 as int).last() == w@[i as int]);
        }
        if !(c == 'q' && ch == 'u') {
            a = b;
            b = c;
            c = ch;
        }
        i = i + 1;
    }
    proof {
        assert(w@.take(w@.len() as int) =~= w@);
    }
    if c == 'w' || c == 'x' {
        return None;
    }
    if (b == 'e' && c == 'd') || (b == 'e' && c == 'n') || (b == 'e' && c == 'r') || (b == 'o' && c
        == 'n') {
        return None;
    }
    if !is_vowel(a) && is_vowel(b) && !is_vowel(c) {
        Some(c)
    } else {
        None
    }
}

/// The regular plural of a noun.
pub open spec fn spec_noun_plural(w: Seq<char>) -> Seq<char> {
    let n = w.len() as int;
    if n > 3 && w.skip(n - 3) == seq!['s', 'i', 's'] {
        w.take(n - 3) + seq!['s', 'e', 's']
    } else if spec_ends_in_y(w) {
        w.take(n - 1) + seq!['i', 'e', 's']
    } else if (n >= 1 && (w.last() == 's' || w.last() == 'x' || w.last() == 'z')) || (n >= 2 && (
    w.skip(n - 2) == seq!['s', 'h'] || w.skip(n - 2) == seq!['c', 'h'])) {
        w + seq!['e', 's']
    } else {
        w + seq!['s']
    }
}

/// Whether the word ends with the two given characters.
fn ends2(w: &Vec<char>, a: char, b: char) -> (r: bool)
    ensures
        r == (w@.len() >= 2 && w@.skip(w@.len() - 2) == seq![a, b]),
{
    let n = w.len();
    if n < 2 {
        return false;
    }
    proof {
        assert(w@.skip(n - 2) =~= seq![w@[n - 2], w@[n - 1]]);
    }
    w[n - 2] == a && w[n - 1] == b
}

/// Whether the word ends with the three given characters.
fn ends3(w: &Vec<char>, a: char, b: char, c: char) -> (r: bool)
    ensures
        r == (w@.len() >= 3 && w@.skip(w@.len() - 3) == seq![a, b, c]),
{
    let n = w.len();
    if n < 3 {
        return false;
    }
    proof {
        assert(w@.skip(n - 3) =~= seq![w@[n - 3], w@[n - 2], w@[n - 1]]);
    }
    w[n - 3] == a && w[n - 2] == b && w[n - 1] == c
}

/// Make a regular plural noun from the singular form.
pub(crate) fn noun_plural(w: &Vec<char>) -> (r: Vec<char>)
    ensures
        r@ == spec_noun_plural(w@),
{
    let n = w.len();
    if n > 3 && ends3(w, 's', 'i', 's') {
        let mut r = take_prefix(w, n - 3);
        r.push('s');
        r.push('e');
        r.push('s');
        proof {
            assert(r@ =~= w@.take(n - 3) + seq!['s', 'e', 's']);
        }
        r
    } else if ends_in_y(w) {
        let mut r = take_prefix(w, n - 1);
        r.push('i');
        r.push('e');
        r.push('s');
        proof {
            assert(r@ =~= w@.take(n - 1) + seq!['i', 'e', 's']);
        }
        r
    } else if (n >= 1 && (w[n - 1] == 's' || w[n - 1] == 'x' || w[n - 1] == 'z')) || ends2(
        w,
        's',
        'h',
    ) || ends2(w, 'c', 'h') {
        let mut r = copy_chars(w);
        r.push('e');
        r.push('s');
        proof {
            assert(r@ =~= w@ + seq!['e', 's']);
        }
        r
    } else {
        let mut r = copy_chars(w);
        r.push('s');
        proof {
            assert(r@ =~= w@ + seq!['s']);
        }
        r
    }
}

/// The regular third-person-singular present of a verb.
pub open spec fn spec_verb_present(w: Seq<char>) -> Seq<char> {
    let n = w.len() as int;
    if spec_ends_in_y(w) {
        w.take(n - 1) + seq!['i', 'e', 's']
    } else if n >= 1 && (w.last() == 's' || w.last() == 'z') {
        match spec_consonant_end_repeat(w) {
            Some(e) => w + seq![e, 'e', 's'],
            None => w + seq!['e', 's'],
        }
    } else if (n >= 2 && (w.skip(n - 2) == seq!['s', 'h'] || w.skip(n - 2) == seq!['c', 'h'])) || (
    n >= 1 && w.last() == 'x') {
        w + seq!['e', 's']
    } else {
        w + seq!['s']
    }
}

/// Make a regular present verb from the lemma form.
pub(crate) fn verb_present(w: &Vec<char>) -> (r: Vec<char>)
    ensures
        r@ == spec_verb_present(w@),
{
    let n = w.len();
    if ends_in_y(w) {
        let mut r = take_prefix(w, n - 1);
        r.push('i');
        r.push('e');
        r.push('s');
        proof {
            assert(r@ =~= w@.take(n - 1) + seq!['i', 'e', 's']);
        }
        r
    } else if n >= 1 && (w[n - 1] == 's' || w[n - 1] == 'z') {
        let mut r = copy_chars(w);
        match consonant_end_repeat(w) {
            Some(e) => {
                r.push(e);
                r.push('e');
                r.push('s');
                proof {
                    assert(r@ =~= w@ + seq![e, 'e', 's']);
                }
            },
            None => {
                r.push('e');
                r.push('s');
                proof {
                    assert(r@ =~= w@ + seq!['e', 's']);
                }
            },
        }
        r
    } else if ends2(w, 's', 'h') || ends2(w, 'c', 'h') || (n >= 1 && w[n - 1] == 'x') {
        let mut r = copy_chars(w);
        r.push('e');
        r.push('s');
        proof {
            assert(r@ =~= w@ + seq!['e', 's']);
        }
        r
    } else {
        let mut r = copy_chars(w);
        r.push('s');
        proof {
            assert(r@ =~= w@ + seq!['s']);
        }
        r
    }
}

/// The regular present participle of a verb.
pub open spec fn spec_verb_present_participle(w: Seq<char>) -> Seq<char> {
    let n = w.len() as int;
    match spec_consonant_end_repeat(w) {
        Some(e) => w + seq![e, 'i', 'n', 'g'],
        None => if spec_ends_in_e(w) {
            w.take(n - 1) + seq!['i', 'n', 'g']
        } else {
            w + seq!['i', 'n', 'g']
        },
    }
}

/// Make a regular present participle verb from the lemma form.
pub(crate) fn verb_present_participle(w: &Vec<char>) -> (r: Vec<char>)
    ensures
        r@ == spec_verb_present_participle(w@),
{
    let n = w.len();
    match consonant_end_repeat(w) {
        Some(e) => {
            let mut r = copy_chars(w);
            r.push(e);
            r.push('i');
            r.push('n');
            r.push('g');
            proof {
                assert(r@ =~= w@ + seq![e, 'i', 'n', 'g']);
            }
            r
        },
        None => {
            if ends_in_e(w) {
                let mut r = take_prefix(w, n - 1);
                r.push('i');
                r.push('n');
                r.push('g');
                proof {
                    assert(r@ =~= w@.take(n - 1) + seq!['i', 'n', 'g']);
                }
                r
            } else {
                let mut r = copy_chars(w);
                r.push('i');
                r.push('n');
                r.push('g');
                proof {
                    assert(r@ =~= w@ + seq!['i', 'n', 'g']);
                }
                r
            }
        },
    }
}

/// The regular past tense of a verb.
pub open spec fn spec_verb_past(w: Seq<char>) -> Seq<char> {
    let n = w.len() as int;
    match spec_consonant_end_repeat(w) {
        Some(e) => w + seq![e, 'e', 'd'],
        None => if n >= 1 && w.last() == 'e' {
            w + seq!['d']
        } else if spec_ends_in_y(w) {
            w.take(n - 1) + seq!['i', 'e', 'd']
        } else {
            w + seq!['e', 'd']
        },
    }
}

/// Make a regular past verb from the lemma form.
pub(crate) fn verb_past(w: &Vec<char>) -> (r: Vec<char>)
    ensures
        r@ == spec_verb_past(w@),
{
    let n = w.len();
    match consonant_end_repeat(w) {
        Some(e) => {
            let mut r = copy_chars(w);
            r.push(e);
            r.push('e');
            r.push('d');
            proof {
                assert(r@ =~= w@ + seq![e, 'e', 'd']);
            }
            r
        },
        None => {
            if n >= 1 && w[n - 1] == 'e' {
                let mut r = copy_chars(w);
                r.push('d');
                proof {
                    assert(r@ =~= w@ + seq!['d']);
                }
                r
            } else if ends_in_y(w) {
                let mut r = take_prefix(w, n - 1);
                r.push('i');
                r.push('e');
                r.push('d');
                proof {
                    assert(r@ =~= w@.take(n - 1) + seq!['i', 'e', 'd']);
                }
                r
            } else {
                let mut r = copy_chars(w);
                r.push('e');
                r.push('d');
                proof {
                    assert(r@ =~= w@ + seq!['e', 'd']);
                }
                r
            }
        },
    }
}

/// The regular comparative of an adjective.
pub open spec fn spec_adjective_comparative(w: Seq<char>) -> Seq<char> {
    let n = w.len() as int;
    if n >= 1 && w.last() == 'e' {
        w + seq!['r']
    } else if spec_ends_in_y(w) {
        w.take(n - 1) + seq!['i', 'e', 'r']
    } else {
        match spec_consonant_end_repeat(w) {
            Some(e) => w + seq![e, 'e', 'r'],
            None => w + seq!['e', 'r'],
        }
    }
}

/// Make a regular comparative adjective from the lemma form.
pub(crate) fn adjective_comparative(w: &Vec<char>) -> (r: Vec<char>)
    ensures
        r@ == spec_adjective_comparative(w@),
{
    let n = w.len();
    if n >= 1 && w[n - 1] == 'e' {
        let mut r = copy_chars(w);
        r.push('r');
        proof {
            assert(r@ =~= w@ + seq!['r']);
        }
        r
    } else if ends_in_y(w) {
        let mut r = take_prefix(w, n - 1);
        r.push('i');
        r.push('e');
        r.push('r');
        proof {
            assert(r@ =~= w@.take(n - 1) + seq!['i', 'e', 'r']);
        }
        r
    } else {
        let mut r = copy_chars(w);
        match consonant_end_repeat(w) {
            Some(e) => {
                r.push(e);
                r.push('e');
                r.push('r');
                proof {
                    assert(r@ =~= w@ + seq![e, 'e', 'r']);
                }
            },
            None => {
                r.push('e');
                r.push('r');
                proof {
                    assert(r@ =~= w@ + seq!['e', 'r']);
                }
            },
        }
        r
    }
}

/// The regular superlative of an adjective.
pub open spec fn spec_adjective_superlative(w: Seq<char>) -> Seq<char> {
    let n = w.len() as int;
    if n >= 1 && w.last() == 'e' {
        w + seq!['s', 't']
    } else if spec_ends_in_y(w) {
        w.take(n - 1) + seq!['i', 'e', 's', 't']
    } else {
        match spec_consonant_end_repeat(w) {
            Some(e) => w + seq![e, 'e', 's', 't'],
            None => w + seq!['e', 's', 't'],
        }
    }
}

/// Make a regular superlative adjective from the lemma form.
pub(crate) fn adjective_superlative(w: &Vec<char>) -> (r: Vec<char>)
    ensures
        r@ == spec_adjective_superlative(w@),
{
    let n = w.len();
    if n >= 1 && w[n - 1] == 'e' {
        let mut r = copy_chars(w);
        r.push('s');
        r.push('t');
        proof {
            assert(r@ =~= w@ + seq!['s', 't']);
        }
        r
    } else if ends_in_y(w) {
        let mut r = take_prefix(w, n - 1);
        r.push('i');
        r.push('e');
        r.push('s');
        r.push('t');
        proof {
            assert(r@ =~= w@.take(n - 1) + seq!['i', 'e', 's', 't']);
        }
        r
    } else {
        let mut r = copy_chars(w);
        match consonant_end_repeat(w) {
            Some(e) => {
                r.push(e);
                r.push('e');
                r.push('s');
                r.push('t');
                proof {
                    assert(r@ =~= w@ + seq![e, 'e', 's', 't']);
                }
            },
            None => {
                r.push('e');
                r.push('s');
                r.push('t');
                proof {
                    assert(r@ =~= w@ + seq!['e', 's', 't']);
                }
            },
        }
        r
    }
}

/// The ASCII transliteration of a character, as the deunicode tables
/// give it; `None` for characters the tables do not know.
pub uninterp spec fn ascii_of(c: char) -> Option<Seq<char>>;

/// Relies on deunicode::deunicode_char: the ASCII transliteration of a
/// character depends on the character alone.
#[verifier::external_body]
pub(crate) fn deunicode_chars(c: char) -> (r: Option<Vec<char>>)
    ensures
        r is Some <==> ascii_of(c) is Some,
        r matches Some(v) ==> ascii_of(c) == Some(v@),
{
    deunicode::deunicode_char(c).map(|s| s.chars().collect())
}

/// The last position of a character in a word, if any.
pub open spec fn spec_rfind_char(s: Seq<char>, c: char) -> Option<int>
    decreases s.len(),
{
    if s.len() == 0 {
        None
    } else if s.last() == c {
        Some(s.len() - 1)
    } else {
        spec_rfind_char(s.drop_last(), c)
    }
}

/// Find the last position of a character in a word.
pub(crate) fn rfind_char(s: &Vec<char>, c: char) -> (r: Option<usize>)
    ensures
        r matches Some(i) ==> Some(i as int) == spec_rfind_char(s@, c) && i < s@.len(),
        r is None <==> spec_rfind_char(s@, c) is None,
{
    let mut i: usize = s.len();
    proof {
        assert(s@.take(s@.len() as int) =~= s@);
    }
    while i > 0
        invariant
            i <= s@.len(),
            spec_rfind_char(s@, c) == spec_rfind_char(s@.take(i as int), c),
        decreases i,
    {
        i = i - 1;
        proof {
            assert(s@.take(i + 1 as int).drop_last() =~= s@.take(i as int));
            assert(s@.take(i + 1 as int).last() == s@[i as int]);
        }
        if s[i] == c {
            return Some(i);
        }
    }
    proof {
        assert(s@.take(0) =~= Seq::<char>::empty());
    }
    None
}

/// The last position at which `needle` occurs as a subsequence of `s`
/// with its start at or below `hi`.
pub open spec fn spec_rfind_seq_below(s: Seq<char>, needle: Seq<char>, hi: int) -> Option<int>
    decreases hi + 1,
{
    if hi < 0 {
        None
    } else if s.subrange(hi, hi + needle.len()) == needle {
        Some(hi)
    } else {
        spec_rfind_seq_below(s, needle, hi - 1)
    }
}

/// The last position at which `needle` occurs as a subsequence of `s`;
/// an empty needle occurs at the end of `s`.
pub open spec fn spec_rfind_seq(s: Seq<char>, needle: Seq<char>) -> Option<int> {
    if needle.len() > s.len() {
        None
    } else {
        spec_rfind_seq_below(s, needle, s.len() - needle.len())
    }
}

/// Whether `needle` occurs in `s` starting at position `at`.
fn seq_matches_at(s: &Vec<char>, needle: &Vec<char>, at: usize) -> (r: bool)
    requires
        at + needle@.len() <= s@.len(),
    ensures
        r == (s@.subrange(at as int, at + needle@.len()) == needle@),
{
    let slen = s.len();
    let mut j: usize = 0;
    while j < needle.len()
        invariant
            j <= needle@.len(),
            at + needle@.len() <= s@.len(),
            s@.len() == slen,
            forall|k: int| 0 <= k < j ==> s@[at + k] == needle@[k],
        decreases needle@.len() - j,
    {
        proof {
            assert(at + j < s@.len());
        }
        if s[at + j] != needle[j] {
            proof {
                assert(s@.subrange(at as int, at + needle@.len())[j as int] == s@[at + j]);
            }
            return false;
        }
        j = j + 1;
    }
    proof {
        assert(s@.subrange(at as int, at + needle@.len()) =~= needle@);
    }
    true
}

/// Find the last position at which `needle` occurs in `s`.
pub(crate) fn rfind_seq(s: &Vec<char>, needle: &Vec<char>) -> (r: Option<usize>)
    ensures
        r matches Some(i) ==> Some(i as int) == spec_rfind_seq(s@, needle@) && i + needle@.len()
            <= s@.len(),
        r is None <==> spec_rfind_seq(s@, needle@) is None,
{
    if needle.len() > s.len() {
        return None;
    }
    let slen = s.len();
    let n = slen - needle.len();
    let mut count: usize = 0;
    while count <= n
        invariant
            count <= n + 1,
            n == s@.len() - needle@.len(),
            s@.len() == slen,
            spec_rfind_seq(s@, needle@) == spec_rfind_seq_below(
                s@,
                needle@,
                n as int - count as int,
            ),
        decreases n + 1 - count,
    {
        if seq_matches_at(s, needle, n - count) {
            return Some(n - count);
        }
        proof {
            if needle@.len() == 0 {
                assert(s@.subrange((n - count) as int, (n - count) as int + needle@.len())
                    =~= needle@);
            }
        }
        count = count + 1;
    }
    None
}

/// The decoding of an irregular form token against a lemma.
///
/// A token of the shape `-<suffix>` cuts the lemma at the last occurrence
/// of the suffix's first character and appends the suffix there.  When
/// that character does not occur but its ASCII transliteration does, the
/// transliteration joins the two parts instead.  Any other token decodes
/// to itself.
pub open spec fn spec_decode_irregular(lemma: Seq<char>, form: Seq<char>) -> Option<Seq<char>> {
    if form.len() >= 2 && form[0] == '-' {
        let suffix = form.skip(1);
        let ch = suffix[0];
        match spec_rfind_char(lemma, ch) {
            Some(j) => Some(lemma.take(j) + suffix),
            None => match ascii_of(ch) {
                Some(alt) => if !(alt.len() > 0 && alt[0] == ch) {
                    match spec_rfind_seq(lemma, alt) {
                        Some(j) => Some(lemma.take(j) + alt + suffix.skip(1)),
                        None => None,
                    }
                } else {
                    None
                },
                None => None,
            },
        }
    } else {
        Some(form)
    }
}

/// Decode an irregular word form.
pub fn decode_irregular(lemma: &Vec<char>, form: &Vec<char>) -> (r: Option<Vec<char>>)
    ensures
        r is Some <==> spec_decode_irregular(lemma@, form@) is Some,
        r matches Some(v) ==> spec_decode_irregular(lemma@, form@) == Some(v@),
{
    if !(form.len() >= 2 && form[0] == '-') {
        return Some(copy_chars(form));
    }
    let suffix = {
        let mut sfx: Vec<char> = Vec::new();
        let mut i: usize = 1;
        while i < form.len()
            invariant
                1 <= i <= form@.len(),
                sfx@ == form@.subrange(1, i as int),
            decreases form@.len() - i,
        {
            sfx.push(form[i]);
            proof {
                assert(form@.subrange(1, i as int).push(form@[i as int]) =~= form@.subrange(
                    1,
                    i + 1 as int,
                ));
            }
            i = i + 1;
        }
        proof {
            assert(form@.subrange(1, form@.len() as int) =~= form@.skip(1));
        }
        sfx
    };
    let ch = suffix[0];
    match rfind_char(lemma, ch) {
        Some(j) => {
            let mut r = take_prefix(lemma, j);
            let mut k: usize = 0;
            while k < suffix.len()
                invariant
                    k <= suffix@.len(),
                    r@ == lemma@.take(j as int) + suffix@.take(k as int),
                decreases suffix@.len() - k,
            {
                r.push(suffix[k]);
                proof {
                    assert((lemma@.take(j as int) + suffix@.take(k as int)).push(
                        suffix@[k as int],
                    ) =~= lemma@.take(j as int) + suffix@.take(k + 1 as int));
                }
                k = k + 1;
            }
            proof {
                assert(suffix@.take(suffix@.len() as int) =~= suffix@);
            }
            Some(r)
        },
        None => {
            match deunicode_chars(ch) {
                Some(alt) => {
                    if !(alt.len() > 0 && alt[0] == ch) {
                        match rfind_seq(lemma, &alt) {
                            Some(j) => {
                                let mut r = take_prefix(lemma, j);
                                let mut k: usize = 0;
                                while k < alt.len()
                                    invariant
                                        k <= alt@.len(),
                                        r@ == lemma@.take(j as int) + alt@.take(k as int),
                                    decreases alt@.len() - k,
                                {
                                    r.push(alt[k]);
                                    proof {
                                        assert((lemma@.take(j as int) + alt@.take(k as int)).push(
                                            alt@[k as int],
                                        ) =~= lemma@.take(j as int) + alt@.take(k + 1 as int));
                                    }
                                    k = k + 1;
                                }
                                let mut k: usize = 1;
                                while k < suffix.len()
                                    invariant
                                        1 <= k <= suffix@.len(),
                                        alt@.take(alt@.len() as int) == alt@,
                                        r@ == lemma@.take(j as int) + alt@ + suffix@.subrange(
                                            1,
                                            k as int,
                                        ),
                                    decreases suffix@.len() - k,
                                {
                                    r.push(suffix[k]);
                                    proof {
                                        assert((lemma@.take(j as int) + alt@ + suffix@.subrange(
                                            1,
                                            k as int,
                                        )).push(suffix@[k as int]) =~= lemma@.take(j as int) + alt@
                                            + suffix@.subrange(1, k + 1 as int));
                                    }
                                    k = k + 1;
                                }
                                proof {
                                    assert(alt@.take(alt@.len() as int) =~= alt@);
                                    assert(suffix@.subrange(1, suffix@.len() as int) =~= suffix@.skip(
                                        1,
                                    ));
                                }
                                Some(r)
                            },
                            None => None,
                        }
                    } else {
                        None
                    }
                },
                None => None,
            }
        },
    }
}

/// Whether position `i` is a valid cut for encoding `form` against
/// `lemma`: the first `i` characters agree, the lemma's next character
/// is also the form's next character, and that character does not occur
/// again later in the lemma.
pub open spec fn spec_enc_ok(lemma: Seq<char>, form: Seq<char>, i: int) -> bool {
    &&& 3 <= i < lemma.len()
    &&& i < form.len()
    &&& lemma.take(i) == form.take(i)
    &&& form[i] == lemma[i]
    &&& !lemma.skip(i + 1).contains(lemma[i])
}

/// The largest valid cut position at or below `hi`, if any.
pub open spec fn spec_enc_pos_below(lemma: Seq<char>, form: Seq<char>, hi: int) -> Option<int>
    decreases hi + 1,
{
    if hi < 3 {
        None
    } else if spec_enc_ok(lemma, form, hi) {
        Some(hi)
    } else {
        spec_enc_pos_below(lemma, form, hi - 1)
    }
}

/// A found cut position is itself a valid cut.
proof fn lemma_enc_pos_ok(lemma: Seq<char>, form: Seq<char>, hi: int)
    requires
        spec_enc_pos_below(lemma, form, hi) is Some,
    ensures
        spec_enc_ok(lemma, form, spec_enc_pos_below(lemma, form, hi)->Some_0),
    decreases hi + 1,
{
    if hi >= 3 && !spec_enc_ok(lemma, form, hi) {
        lemma_enc_pos_ok(lemma, form, hi - 1);
    }
}

/// The encoding of an irregular form against a lemma: replace the longest
/// shared prefix (of at least three characters, cut at a character that
/// does not recur in the lemma's tail) with `-`; store the form verbatim
/// when no such prefix exists.
pub open spec fn spec_encode_irregular(lemma: Seq<char>, form: Seq<char>) -> Seq<char> {
    match spec_enc_pos_below(lemma, form, lemma.len() - 1) {
        Some(i) => seq!['-'] + form.skip(i),
        None => form,
    }
}

/// When `c` occurs at position `i` of a word and nowhere later, `i` is
/// its last occurrence.
proof fn lemma_rfind_char_exact(s: Seq<char>, c: char, i: int)
    requires
        0 <= i < s.len(),
        s[i] == c,
        !s.skip(i + 1).contains(c),
    ensures
        spec_rfind_char(s, c) == Some(i),
    decreases s.len(),
{
    if i == s.len() - 1 {
        assert(s.last() == c);
    } else {
        assert(s.skip(i + 1)[s.len() - i - 2] == s.last());
        assert(s.last() != c);
        let d = s.drop_last();
        assert(d[i] == s[i]);
        assert forall|m: int| 0 <= m < d.skip(i + 1).len() implies #[trigger] d.skip(i + 1)[m]
            != c by {
            assert(d.skip(i + 1)[m] == s.skip(i + 1)[m]);
            assert(s.skip(i + 1)[m] != c);
        }
        assert(!d.skip(i + 1).contains(c));
        lemma_rfind_char_exact(d, c, i);
    }
}

/// Irregular round trip: encoding a stored form against a lemma and
/// decoding the result gives the form back, for every form other than a
/// multi-character form that itself begins with `-` (a decoded form
/// begins with `-` only when the lemma itself holds a `-`).
pub proof fn lemma_irregular_round_trip(lemma: Seq<char>, form: Seq<char>)
    requires
        form.len() >= 2 ==> form[0] != '-',
    ensures
        spec_decode_irregular(lemma, spec_encode_irregular(lemma, form)) == Some(form),
{
    let pos = spec_enc_pos_below(lemma, form, lemma.len() - 1);
    match pos {
        None => {},
        Some(i) => {
            lemma_enc_pos_ok(lemma, form, lemma.len() - 1);
            let enc = seq!['-'] + form.skip(i);
            assert(enc.len() >= 2);
            assert(enc[0] == '-');
            let suffix = enc.skip(1);
            assert(suffix =~= form.skip(i));
            let ch = suffix[0];
            assert(ch == form[i]);
            lemma_rfind_char_exact(lemma, ch, i);
            assert(lemma.take(i) + suffix =~= form);
        },
    }
}

/// Check whether position `i` is a valid encoding cut.
fn enc_ok_at(lemma: &Vec<char>, form: &Vec<char>, i: usize) -> (r: bool)
    requires
        3 <= i < lemma@.len(),
    ensures
        r == spec_enc_ok(lemma@, form@, i as int),
{
    if i >= form.len() {
        return false;
    }
    if form[i] != lemma[i] {
        return false;
    }
    let mut k: usize = 0;
    while k < i
        invariant
            k <= i,
            i < lemma@.len(),
            i < form@.len(),
            forall|m: int| 0 <= m < k ==> lemma@[m] == form@[m],
        decreases i - k,
    {
        if lemma[k] != form[k] {
            proof {
                assert(lemma@.take(i as int)[k as int] == lemma@[k as int]);
                assert(form@.take(i as int)[k as int] == form@[k as int]);
            }
            return false;
        }
        k = k + 1;
    }
    proof {
        assert(lemma@.take(i as int) =~= form@.take(i as int));
    }
    let c = lemma[i];
    let mut k: usize = i + 1;
    while k < lemma.len()
        invariant
            i + 1 <= k <= lemma@.len(),
            i < lemma@.len(),
            c == lemma@[i as int],
            forall|m: int| i + 1 <= m < k ==> #[trigger] lemma@[m] != lemma@[i as int],
        decreases lemma@.len() - k,
    {
        if lemma[k] == c {
            proof {
                assert(lemma@.skip(i + 1 as int)[k - i - 1] == lemma@[k as int]);
                assert(lemma@.skip(i + 1 as int).contains(lemma@[i as int]));
            }
            return false;
        }
        k = k + 1;
    }
    proof {
        assert forall|m: int| 0 <= m < lemma@.skip(i + 1 as int).len() implies #[trigger] lemma@.skip(
            i + 1 as int,
        )[m] != lemma@[i as int] by {
            assert(lemma@.skip(i + 1 as int)[m] == lemma@[i + 1 + m]);
        }
        assert(!lemma@.skip(i + 1 as int).contains(lemma@[i as int]));
    }
    true
}

/// Encode an irregular word form.
pub fn encode_irregular(lemma: &Vec<char>, form: &Vec<char>) -> (r: Vec<char>)
    ensures
        r@ == spec_encode_irregular(lemma@, form@),
{
    if lemma.len() <= 3 {
        return copy_chars(form);
    }
    let mut best: Option<usize> = None;
    let mut i: usize = 3;
    while i < lemma.len()
        invariant
            3 <= i <= lemma@.len(),
            (match best {
                Some(b) => Some(b as int),
                None => None,
            }) == spec_enc_pos_below(lemma@, form@, i - 1),
        decreases lemma@.len() - i,
    {
        if enc_ok_at(lemma, form, i) {
            best = Some(i);
        }
        i = i + 1;
    }
    match best {
        Some(b) => {
            proof {
                lemma_enc_pos_ok(lemma@, form@, lemma@.len() - 1);
            }
            let mut r: Vec<char> = Vec::new();
            r.push('-');
            let mut k: usize = b;
            while k < form.len()
                invariant
                    b <= k <= form@.len(),
                    r@ == seq!['-'] + form@.subrange(b as int, k as int),
                decreases form@.len() - k,
            {
                r.push(form[k]);
                proof {
                    assert((seq!['-'] + form@.subrange(b as int, k as int)).push(form@[k as int])
                        =~= seq!['-'] + form@.subrange(b as int, k + 1 as int));
                }
                k = k + 1;
            }
            proof {
                assert(form@.subrange(b as int, form@.len() as int) =~= form@.skip(b as int));
            }
            r
        },
        None => copy_chars(form),
    }
}

/// The views of a sequence of character vectors.
pub open spec fn seq_views(s: Seq<Vec<char>>) -> Seq<Seq<char>> {
    s.map_values(|v: Vec<char>| v@)
}

/// The views of a sequence of strings.
pub open spec fn str_views(s: Seq<String>) -> Seq<Seq<char>> {
    s.map_values(|v: String| v@)
}

/// The first position of a character in a word, if any.
pub open spec fn spec_find_char(s: Seq<char>, c: char) -> Option<int>
    decreases s.len(),
{
    if s.len() == 0 {
        None
    } else if s[0] == c {
        Some(0)
    } else {
        match spec_find_char(s.skip(1), c) {
            Some(j) => Some(j + 1),
            None => None,
        }
    }
}

/// The first occurrence of `c` is the position where it first appears.
proof fn lemma_find_char_exact(s: Seq<char>, c: char, i: int)
    requires
        0 <= i < s.len(),
        s[i] == c,
        forall|j: int| 0 <= j < i ==> s[j] != c,
    ensures
        spec_find_char(s, c) == Some(i),
    decreases s.len(),
{
    if i > 0 {
        let t = s.skip(1);
        assert(t[i - 1] == s[i]);
        assert forall|j: int| 0 <= j < i - 1 implies t[j] != c by {
            assert(t[j] == s[j + 1]);
        }
        lemma_find_char_exact(t, c, i - 1);
    }
}

/// A found character stands at its position.
pub(crate) proof fn lemma_find_char_found(s: Seq<char>, c: char)
    requires
        spec_find_char(s, c) is Some,
    ensures
        0 <= spec_find_char(s, c)->Some_0 < s.len(),
        s[spec_find_char(s, c)->Some_0] == c,
    decreases s.len(),
{
    if s.len() > 0 && s[0] != c {
        lemma_find_char_found(s.skip(1), c);
        assert(s.skip(1)[spec_find_char(s.skip(1), c)->Some_0] == c);
    }
}

/// A word without the character has no first occurrence of it.
proof fn lemma_find_char_none(s: Seq<char>, c: char)
    requires
        forall|j: int| 0 <= j < s.len() ==> s[j] != c,
    ensures
        spec_find_char(s, c) is None,
    decreases s.len(),
{
    if s.len() > 0 {
        let t = s.skip(1);
        assert forall|j: int| 0 <= j < t.len() implies t[j] != c by {
            assert(t[j] == s[j + 1]);
        }
        lemma_find_char_none(t, c);
    }
}

/// Find the first position of a character in a word.
pub(crate) fn find_char(s: &Vec<char>, c: char) -> (r: Option<usize>)
    ensures
        r matches Some(i) ==> Some(i as int) == spec_find_char(s@, c) && i < s@.len(),
        r is None <==> spec_find_char(s@, c) is None,
{
    let mut i: usize = 0;
    while i < s.len()
        invariant
            i <= s@.len(),
            forall|j: int| 0 <= j < i ==> s@[j] != c,
        decreases s@.len() - i,
    {
        if s[i] == c {
            proof {
                lemma_find_char_exact(s@, c, i as int);
            }
            return Some(i);
        }
        i = i + 1;
    }
    proof {
        lemma_find_char_none(s@, c);
    }
    None
}

/// The characters of a word from position `k` on.
pub(crate) fn skip_chars(w: &Vec<char>, k: usize) -> (r: Vec<char>)
    requires
        k <= w@.len(),
    ensures
        r@ == w@.skip(k as int),
{
    let mut r: Vec<char> = Vec::new();
    let mut i: usize = k;
    while i < w.len()
        invariant
            k <= i <= w@.len(),
            r@ == w@.subrange(k as int, i as int),
        decreases w@.len() - i,
    {
        r.push(w[i]);
        proof {
            assert(w@.subrange(k as int, i as int).push(w@[i as int]) =~= w@.subrange(
                k as int,
                i + 1 as int,
            ));
        }
        i = i + 1;
    }
    proof {
        assert(w@.subrange(k as int, w@.len() as int) =~= w@.skip(k as int));
    }
    r
}

/// Whether two character vectors hold the same characters.
pub(crate) fn chars_eq(a: &Vec<char>, b: &Vec<char>) -> (r: bool)
    ensures
        r == (a@ == b@),
{
    if a.len() != b.len() {
        return false;
    }
    let mut i: usize = 0;
    while i < a.len()
        invariant
            i <= a@.len(),
            a@.len() == b@.len(),
            forall|j: int| 0 <= j < i ==> a@[j] == b@[j],
        decreases a@.len() - i,
    {
        if a[i] != b[i] {
            return false;
        }
        i = i + 1;
    }
    proof {
        assert(a@ =~= b@);
    }
    true
}

/// Whether a word contains a character.
pub(crate) fn contains_char(w: &Vec<char>, c: char) -> (r: bool)
    ensures
        r == w@.contains(c),
{
    let mut i: usize = 0;
    while i < w.len()
        invariant
            i <= w@.len(),
            forall|j: int| 0 <= j < i ==> w@[j] != c,
        decreases w@.len() - i,
    {
        if w[i] == c {
            proof {
                assert(w@[i as int] == c);
            }
            return true;
        }
        i = i + 1;
    }
    false
}

/// The fields of a line split on a separator character; a line without
/// the separator is one field, and separators delimit possibly empty
/// fields.
pub open spec fn spec_split_char(s: Seq<char>, sep: char) -> Seq<Seq<char>>
    decreases s.len(),
{
    match spec_find_char(s, sep) {
        None => seq![s],
        Some(j) => if 0 <= j < s.len() {
            seq![s.take(j)] + spec_split_char(s.skip(j + 1), sep)
        } else {
            seq![s]
        },
    }
}

/// Finding a character past a prefix that does not hold it.
proof fn lemma_find_char_concat(pre: Seq<char>, rest: Seq<char>, c: char)
    requires
        forall|j: int| 0 <= j < pre.len() ==> pre[j] != c,
    ensures
        spec_find_char(pre + rest, c) == (match spec_find_char(rest, c) {
            Some(j) => Some(j + pre.len()),
            None => None,
        }),
    decreases pre.len(),
{
    if pre.len() == 0 {
        assert(pre + rest =~= rest);
    } else {
        let s = pre + rest;
        assert(s[0] == pre[0]);
        assert(s.skip(1) =~= pre.skip(1) + rest);
        assert forall|j: int| 0 <= j < pre.skip(1).len() implies pre.skip(1)[j] != c by {
            assert(pre.skip(1)[j] == pre[j + 1]);
        }
        lemma_find_char_concat(pre.skip(1), rest, c);
    }
}

/// Split a word on a separator character.
pub(crate) fn split_char(s: &Vec<char>, sep: char) -> (r: Vec<Vec<char>>)
    ensures
        seq_views(r@) == spec_split_char(s@, sep),
{
    let mut fields: Vec<Vec<char>> = Vec::new();
    let mut cur: Vec<char> = Vec::new();
    let mut i: usize = 0;
    proof {
        assert(cur@ + s@.skip(0) =~= s@);
        assert(seq_views(fields@) =~= Seq::<Seq<char>>::empty());
        assert(seq_views(fields@) + spec_split_char(s@, sep) =~= spec_split_char(s@, sep));
    }
    while i < s.len()
        invariant
            i <= s@.len(),
            forall|j: int| 0 <= j < cur@.len() ==> cur@[j] != sep,
            spec_split_char(s@, sep) == seq_views(fields@) + spec_split_char(
                cur@ + s@.skip(i as int),
                sep,
            ),
        decreases s@.len() - i,
    {
        let c = s[i];
        proof {
            assert((cur@ + s@.skip(i as int))[cur@.len() as int] == s@[i as int]);
        }
        if c == sep {
            proof {
                let whole = cur@ + s@.skip(i as int);
                lemma_find_char_concat(cur@, s@.skip(i as int), sep);
                lemma_find_char_exact(s@.skip(i as int), sep, 0);
                assert(spec_find_char(whole, sep) == Some(cur@.len() as int));
                assert(whole.take(cur@.len() as int) =~= cur@);
                assert(whole.skip(cur@.len() as int + 1) =~= s@.skip(i + 1 as int));
                assert(seq_views(fields@.push(cur)) =~= seq_views(fields@) + seq![cur@]);
                assert(Seq::<char>::empty() + s@.skip(i + 1 as int) =~= s@.skip(i + 1 as int));
            }
            fields.push(cur);
            cur = Vec::new();
        } else {
            proof {
                assert(cur@.push(c) + s@.skip(i + 1 as int) =~= cur@ + s@.skip(i as int));
            }
            cur.push(c);
        }
        i = i + 1;
    }
    proof {
        assert(cur@ + s@.skip(s@.len() as int) =~= cur@);
        lemma_find_char_none(cur@, sep);
        assert(spec_split_char(cur@, sep) =~= seq![cur@]);
        assert(seq_views(fields@.push(cur)) =~= seq_views(fields@) + seq![cur@]);
    }
    fields.push(cur);
    fields
}

/// Word class.
#[derive(Clone, Copy, Debug, Default, Eq, Hash, PartialEq, Structural)]
pub enum WordClass {
    /// `A`: Adjective
    Adjective,
    /// `Av`: Adverb
    Adverb,
    /// `C`: Conjunction
    Conjunction,
    /// `D`: Determiner
    Determiner,
    /// `I`: Interjection
    Interjection,
    /// `N`: Noun
    #[default]
    Noun,
    /// `P`: Preposition
    Preposition,
    /// `Pn`: Pronoun
    Pronoun,
    /// `V`: Verb
    Verb,
}

impl WordClass {
    /// The short code of a word class.
    pub open spec fn spec_code(self) -> Seq<char> {
        match self {
            WordClass::Noun => seq!['N'],
            WordClass::Verb => seq!['V'],
            WordClass::Adjective => seq!['A'],
            WordClass::Adverb => seq!['A', 'v'],
            WordClass::Preposition => seq!['P'],
            WordClass::Pronoun => seq!['P', 'n'],
            WordClass::Conjunction => seq!['C'],
            WordClass::Determiner => seq!['D'],
            WordClass::Interjection => seq!['I'],
        }
    }

    /// The word class a short code names, if any.
    pub open spec fn spec_of_code(s: Seq<char>) -> Option<WordClass> {
        if s == seq!['N'] {
            Some(WordClass::Noun)
        } else if s == seq!['V'] {
            Some(WordClass::Verb)
        } else if s == seq!['A'] {
            Some(WordClass::Adjective)
        } else if s == seq!['A', 'v'] {
            Some(WordClass::Adverb)
        } else if s == seq!['P'] {
            Some(WordClass::Preposition)
        } else if s == seq!['P', 'n'] {
            Some(WordClass::Pronoun)
        } else if s == seq!['C'] {
            Some(WordClass::Conjunction)
        } else if s == seq!['D'] {
            Some(WordClass::Determiner)
        } else if s == seq!['I'] {
            Some(WordClass::Interjection)
        } else {
            None
        }
    }

    /// The position of the class in its fixed order.
    pub open spec fn rank(self) -> int {
        match self {
            WordClass::Adjective => 0,
            WordClass::Adverb => 1,
            WordClass::Conjunction => 2,
            WordClass::Determiner => 3,
            WordClass::Interjection => 4,
            WordClass::Noun => 5,
            WordClass::Preposition => 6,
            WordClass::Pronoun => 7,
            WordClass::Verb => 8,
        }
    }

    /// Get the rank of the class in its fixed order.
    pub(crate) fn rank_of(self) -> (r: u8)
        ensures
            r as int == self.rank(),
    {
        match self {
            WordClass::Adjective => 0,
            WordClass::Adverb => 1,
            WordClass::Conjunction => 2,
            WordClass::Determiner => 3,
            WordClass::Interjection => 4,
            WordClass::Noun => 5,
            WordClass::Preposition => 6,
            WordClass::Pronoun => 7,
            WordClass::Verb => 8,
        }
    }

    /// Get the short code of the word class.
    pub fn code(self) -> (r: &'static str)
        ensures
            r@ == self.spec_code(),
    {
        let r = match self {
            WordClass::Noun => "N",
            WordClass::Verb => "V",
            WordClass::Adjective => "A",
            WordClass::Adverb => "Av",
            WordClass::Preposition => "P",
            WordClass::Pronoun => "Pn",
            WordClass::Conjunction => "C",
            WordClass::Determiner => "D",
            WordClass::Interjection => "I",
        };
        proof {
            reveal_strlit("N");
            reveal_strlit("V");
            reveal_strlit("A");
            reveal_strlit("Av");
            reveal_strlit("P");
            reveal_strlit("Pn");
            reveal_strlit("C");
            reveal_strlit("D");
            reveal_strlit("I");
            assert(r@ =~= self.spec_code());
        }
        r
    }

    /// Decode a short class code, as it stands in a lexicon line.
    pub fn try_from_code(s: &str) -> (r: Option<WordClass>)
        ensures
            r == WordClass::spec_of_code(s@),
    {
        let w = str_chars(s);
        WordClass::of_code_chars(&w)
    }

    /// Decode a short class code given as characters.
    pub(crate) fn of_code_chars(w: &Vec<char>) -> (r: Option<WordClass>)
        ensures
            r == WordClass::spec_of_code(w@),
    {
        proof {
            if w@.len() == 1 {
                assert(w@ =~= seq![w@[0]]);
            }
            if w@.len() == 2 {
                assert(w@ =~= seq![w@[0], w@[1]]);
            }
        }
        if w.len() == 1 {
            match w[0] {
                'N' => Some(WordClass::Noun),
                'V' => Some(WordClass::Verb),
                'A' => Some(WordClass::Adjective),
                'P' => Some(WordClass::Preposition),
                'C' => Some(WordClass::Conjunction),
                'D' => Some(WordClass::Determiner),
                'I' => Some(WordClass::Interjection),
                _ => None,
            }
        } else if w.len() == 2 {
            if w[0] == 'A' && w[1] == 'v' {
                Some(WordClass::Adverb)
            } else if w[0] == 'P' && w[1] == 'n' {
                Some(WordClass::Pronoun)
            } else {
                None
            }
        } else {
            None
        }
    }
}

/// Word attributes.
#[derive(Clone, Copy, Debug, Eq, Hash, PartialEq, Structural)]
pub enum WordAttr {
    /// `s`: Singulare Tantum (e.g. "dust" or "information")
    SingulareTantum,
    /// `p`: Plurale Tantum (e.g. "pants" or "scissors")
    PluraleTantum,
    /// `n`: Proper (name) noun
    Proper,
    /// `a`: Auxiliary verb (e.g. "cannot")
    Auxiliary,
    /// `i`: Intransitive verb or preposition
    Intransitive,
    /// `t`: Transitive verb or preposition
    Transitive,
    /// `z`: Alternate `z => s` spelling
    AlternateZ,
}

impl WordAttr {
    /// The attribute an attribute character names, if any.
    pub open spec fn spec_of_char(c: char) -> Option<WordAttr> {
        match c {
            's' => Some(WordAttr::SingulareTantum),
            'p' => Some(WordAttr::PluraleTantum),
            'n' => Some(WordAttr::Proper),
            'a' => Some(WordAttr::Auxiliary),
            'i' => Some(WordAttr::Intransitive),
            't' => Some(WordAttr::Transitive),
            'z' => Some(WordAttr::AlternateZ),
            _ => None,
        }
    }

    /// Decode an attribute character.
    pub fn try_from_char(c: char) -> (r: Option<WordAttr>)
        ensures
            r == WordAttr::spec_of_char(c),
    {
        match c {
            's' => Some(WordAttr::SingulareTantum),
            'p' => Some(WordAttr::PluraleTantum),
            'n' => Some(WordAttr::Proper),
            'a' => Some(WordAttr::Auxiliary),
            'i' => Some(WordAttr::Intransitive),
            't' => Some(WordAttr::Transitive),
            'z' => Some(WordAttr::AlternateZ),
            _ => None,
        }
    }
}

/// A noun has a plural form unless it is marked singulare or plurale
/// tantum.
pub open spec fn spec_has_plural(attr: Seq<char>) -> bool {
    !attr.contains('s') && !attr.contains('p')
}

/// A lemma has the alternate `z => s` spelling when its attributes hold
/// `z`.
pub open spec fn spec_has_alt_z(attr: Seq<char>) -> bool {
    attr.contains('z')
}

/// The number of vowel runs in a word: positions where a vowel follows a
/// non-vowel (or starts the word).
pub open spec fn spec_vowel_starts(s: Seq<char>) -> nat
    decreases s.len(),
{
    if s.len() == 0 {
        0
    } else {
        spec_vowel_starts(s.drop_last()) + (if spec_is_vowel(s.last()) && (s.len() == 1
            || !spec_is_vowel(s[s.len() - 2])) {
            1nat
        } else {
            0nat
        })
    }
}

/// The syllable count of a lemma: its vowel runs, after stripping a
/// single trailing silent `e`.  A rough heuristic.
pub open spec fn spec_count_syllables(lemma: Seq<char>) -> nat {
    if spec_ends_in_e(lemma) {
        spec_vowel_starts(lemma.take(lemma.len() - 1))
    } else {
        spec_vowel_starts(lemma)
    }
}

/// Count syllables in a word (poorly).
pub(crate) fn count_syllables_chars(w: &Vec<char>) -> (r: usize)
    ensures
        r as nat == spec_count_syllables(w@),
{
    let n = if ends_in_e(w) {
        w.len() - 1
    } else {
        w.len()
    };
    let ghost t = if spec_ends_in_e(w@) {
        w@.take(w@.len() - 1)
    } else {
        w@
    };
    proof {
        assert(w@.take(w@.len() as int) =~= w@);
        assert(t =~= w@.take(n as int));
    }
    let mut count: usize = 0;
    let mut i: usize = 0;
    while i < n
        invariant
            i <= n <= w@.len(),
            t == w@.take(n as int),
            count as nat == spec_vowel_starts(t.take(i as int)),
            count <= i,
        decreases n - i,
    {
        let c = w[i];
        proof {
            assert(t.take(i + 1 as int).drop_last() =~= t.take(i as int));
            assert(t.take(i + 1 as int).last() == t[i as int]);
            assert(t[i as int] == w@[i as int]);
            if i > 0 {
                assert(t.take(i + 1 as int)[i - 1] == w@[i - 1]);
            }
        }
        if is_vowel(c) && (i == 0 || !is_vowel(w[i - 1])) {
            count = count + 1;
        }
        i = i + 1;
    }
    proof {
        assert(t.take(n as int) =~= t);
    }
    count
}

/// The regular inflections of one variant spelling, by word class.
pub open spec fn spec_regular_forms(
    wc: WordClass,
    syl_ok: bool,
    has_pl: bool,
    v: Seq<char>,
) -> Seq<Seq<char>> {
    match wc {
        WordClass::Adjective => if syl_ok {
            seq![spec_adjective_comparative(v), spec_adjective_superlative(v)]
        } else {
            seq![]
        },
        WordClass::Noun => if has_pl {
            seq![spec_noun_plural(v)]
        } else {
            seq![]
        },
        WordClass::Verb => seq![
            spec_verb_present(v),
            spec_verb_present_participle(v),
            spec_verb_past(v),
        ],
        _ => seq![],
    }
}

/// Build regular inflected forms for one variant spelling.
pub(crate) fn regular_forms(wc: WordClass, syl_ok: bool, has_pl: bool, v: &Vec<char>) -> (r: Vec<
    Vec<char>,
>)
    ensures
        seq_views(r@) == spec_regular_forms(wc, syl_ok, has_pl, v@),
{
    let mut r: Vec<Vec<char>> = Vec::new();
    match wc {
        WordClass::Adjective => {
            if syl_ok {
                r.push(adjective_comparative(v));
                r.push(adjective_superlative(v));
            }
        },
        WordClass::Noun => {
            if has_pl {
                r.push(noun_plural(v));
            }
        },
        WordClass::Verb => {
            r.push(verb_present(v));
            r.push(verb_present_participle(v));
            r.push(verb_past(v));
        },
        _ => {},
    }
    proof {
        assert(seq_views(r@) =~= spec_regular_forms(wc, syl_ok, has_pl, v@));
    }
    r
}

/// Append the characters of one word to another.
pub(crate) fn append_chars(dst: &mut Vec<char>, src: &Vec<char>)
    ensures
        final(dst)@ == old(dst)@ + src@,
{
    let mut k: usize = 0;
    while k < src.len()
        invariant
            k <= src@.len(),
            dst@ == old(dst)@ + src@.take(k as int),
        decreases src@.len() - k,
    {
        proof {
            assert((old(dst)@ + src@.take(k as int)).push(src@[k as int]) =~= old(dst)@
                + src@.take(k + 1 as int));
        }
        dst.push(src[k]);
        k = k + 1;
    }
    proof {
        assert(old(dst)@ + src@.take(src@.len() as int) =~= old(dst)@ + src@);
    }
}

/// Every variant spelling extended by the given character.
pub open spec fn push_all(s: Seq<Seq<char>>, ch: char) -> Seq<Seq<char>> {
    s.map_values(|v: Seq<char>| v.push(ch))
}

/// Every variant spelling extended by the given characters.
pub open spec fn append_all(s: Seq<Seq<char>>, suf: Seq<char>) -> Seq<Seq<char>> {
    s.map_values(|v: Seq<char>| v + suf)
}

/// One step of variant enumeration: keep each variant extended by the
/// lemma's next character; branch on a differing ASCII transliteration;
/// and let `æ` and `œ` also expand to a bare `e`.  A character unknown
/// to the transliteration tables is dropped.
pub open spec fn spec_variant_step(prev: Seq<Seq<char>>, ch: char) -> Seq<Seq<char>> {
    match ascii_of(ch) {
        None => prev,
        Some(alt) => push_all(prev, ch) + (if !(alt.len() > 0 && alt[0] == ch) {
            append_all(prev, alt)
        } else {
            Seq::empty()
        }) + (if ch == '\u{e6}' || ch == '\u{153}' {
            append_all(prev, seq!['e'])
        } else {
            Seq::empty()
        }),
    }
}

/// The variant spellings generated by a lemma's characters.
pub open spec fn spec_variants_of(lemma: Seq<char>) -> Seq<Seq<char>>
    decreases lemma.len(),
{
    if lemma.len() == 0 {
        seq![Seq::<char>::empty()]
    } else {
        spec_variant_step(spec_variants_of(lemma.drop_last()), lemma.last())
    }
}

/// A word with every `z` replaced by `s`.
pub open spec fn spec_replace_z(v: Seq<char>) -> Seq<char> {
    v.map_values(
        |c: char|
            if c == 'z' {
                's'
            } else {
                c
            },
    )
}

/// All variant spellings of a lemma: the transliteration branches, each
/// duplicated with `z` replaced by `s` when the alternate-z attribute is
/// set.
pub open spec fn spec_variants(lemma: Seq<char>, alt_z: bool) -> Seq<Seq<char>> {
    let base = spec_variants_of(lemma);
    if alt_z {
        base + base.map_values(|v: Seq<char>| spec_replace_z(v))
    } else {
        base
    }
}

/// Replace every `z` in a word by `s`.
pub(crate) fn replace_z(v: &Vec<char>) -> (r: Vec<char>)
    ensures
        r@ == spec_replace_z(v@),
{
    let mut r: Vec<char> = Vec::new();
    let mut i: usize = 0;
    while i < v.len()
        invariant
            i <= v@.len(),
            r@ == spec_replace_z(v@.take(i as int)),
        decreases v@.len() - i,
    {
        let c = v[i];
        proof {
            assert(spec_replace_z(v@.take(i as int)).push(
                if v@[i as int] == 'z' {
                    's'
                } else {
                    v@[i as int]
                },
            ) =~= spec_replace_z(v@.take(i + 1 as int)));
        }
        if c == 'z' {
            r.push('s');
        } else {
            r.push(c);
        }
        i = i + 1;
    }
    proof {
        assert(v@.take(v@.len() as int) =~= v@);
    }
    r
}

/// One step of variant enumeration.
fn variant_step(current: Vec<Vec<char>>, ch: char) -> (r: Vec<Vec<char>>)
    ensures
        seq_views(r@) == spec_variant_step(seq_views(current@), ch),
{
    let ghost s = seq_views(current@);
    match deunicode_chars(ch) {
        None => current,
        Some(alt) => {
            let mut r: Vec<Vec<char>> = Vec::new();
            let mut j: usize = 0;
            while j < current.len()
                invariant
                    j <= current@.len(),
                    s == seq_views(current@),
                    seq_views(r@) == push_all(s.take(j as int), ch),
                decreases current@.len() - j,
            {
                let mut nv = copy_chars(&current[j]);
                nv.push(ch);
                proof {
                    assert(seq_views(r@.push(nv)) =~= seq_views(r@).push(nv@));
                    assert(push_all(s.take(j + 1 as int), ch) =~= push_all(s.take(j as int), ch).push(
                        s[j as int].push(ch),
                    ));
                }
                r.push(nv);
                j = j + 1;
            }
            proof {
                assert(s.take(s.len() as int) =~= s);
            }
            let ghost part1 = push_all(s, ch);
            let branch = !(alt.len() > 0 && alt[0] == ch);
            if branch {
                let mut j: usize = 0;
                while j < current.len()
                    invariant
                        j <= current@.len(),
                        s == seq_views(current@),
                        seq_views(r@) == part1 + append_all(s.take(j as int), alt@),
                    decreases current@.len() - j,
                {
                    let mut nv = copy_chars(&current[j]);
                    append_chars(&mut nv, &alt);
                    proof {
                        assert(seq_views(r@.push(nv)) =~= seq_views(r@).push(nv@));
                        assert(part1 + append_all(s.take(j + 1 as int), alt@) =~= (part1
                            + append_all(s.take(j as int), alt@)).push(s[j as int] + alt@));
                    }
                    r.push(nv);
                    j = j + 1;
                }
                proof {
                    assert(s.take(s.len() as int) =~= s);
                }
            } else {
                proof {
                    assert(seq_views(r@) =~= part1 + Seq::<Seq<char>>::empty());
                }
            }
            let ghost part2 = seq_views(r@);
            if ch == '\u{e6}' || ch == '\u{153}' {
                let evec: Vec<char> = vec!['e'];
                proof {
                    assert(evec@ =~= seq!['e']);
                }
                let mut j: usize = 0;
                while j < current.len()
                    invariant
                        j <= current@.len(),
                        s == seq_views(current@),
                        evec@ == seq!['e'],
                        seq_views(r@) == part2 + append_all(s.take(j as int), seq!['e']),
                    decreases current@.len() - j,
                {
                    let mut nv = copy_chars(&current[j]);
                    append_chars(&mut nv, &evec);
                    proof {
                        assert(seq_views(r@.push(nv)) =~= seq_views(r@).push(nv@));
                        assert(part2 + append_all(s.take(j + 1 as int), seq!['e']) =~= (part2
                            + append_all(s.take(j as int), seq!['e'])).push(s[j as int] + seq!['e']));
                    }
                    r.push(nv);
                    j = j + 1;
                }
                proof {
                    assert(s.take(s.len() as int) =~= s);
                }
            } else {
                proof {
                    assert(seq_views(r@) =~= part2 + Seq::<Seq<char>>::empty());
                }
            }
            r
        },
    }
}

/// All variant spellings generated by a lemma's characters.
fn variants_of_chars(lemma: &Vec<char>) -> (r: Vec<Vec<char>>)
    ensures
        seq_views(r@) == spec_variants_of(lemma@),
{
    let mut cur: Vec<Vec<char>> = Vec::new();
    cur.push(Vec::new());
    proof {
        assert(seq_views(cur@) =~= seq![Seq::<char>::empty()]);
        assert(lemma@.take(0) =~= Seq::<char>::empty());
    }
    let mut i: usize = 0;
    while i < lemma.len()
        invariant
            i <= lemma@.len(),
            seq_views(cur@) == spec_variants_of(lemma@.take(i as int)),
        decreases lemma@.len() - i,
    {
        proof {
            assert(lemma@.take(i + 1 as int).drop_last() =~= lemma@.take(i as int));
            assert(lemma@.take(i + 1 as int).last() == lemma@[i as int]);
        }
        cur = variant_step(cur, lemma[i]);
        i = i + 1;
    }
    proof {
        assert(lemma@.take(lemma@.len() as int) =~= lemma@);
    }
    cur
}

/// All variant spellings of a lemma, with the alternate-z duplicates
/// when asked for.
pub(crate) fn variants_chars(lemma: &Vec<char>, alt_z: bool) -> (r: Vec<Vec<char>>)
    ensures
        seq_views(r@) == spec_variants(lemma@, alt_z),
{
    let mut base = variants_of_chars(lemma);
    let ghost b = seq_views(base@);
    if alt_z {
        let n = base.len();
        let mut j: usize = 0;
        while j < n
            invariant
                j <= n,
                n == b.len(),
                base@.len() == n + j,
                b.take(n as int) =~= b,
                seq_views(base@) == b + b.map_values(|v: Seq<char>| spec_replace_z(v)).take(
                    j as int,
                ),
            decreases n - j,
        {
            let nv = replace_z(&base[j]);
            proof {
                assert(seq_views(base@)[j as int] == b[j as int]);
                assert(seq_views(base@.push(nv)) =~= seq_views(base@).push(nv@));
                assert(b + b.map_values(|v: Seq<char>| spec_replace_z(v)).take(j + 1 as int) =~= (b
                    + b.map_values(|v: Seq<char>| spec_replace_z(v)).take(j as int)).push(
                    spec_replace_z(b[j as int]),
                ));
            }
            base.push(nv);
            j = j + 1;
        }
        proof {
            assert(b.map_values(|v: Seq<char>| spec_replace_z(v)).take(n as int) =~= b.map_values(
                |v: Seq<char>| spec_replace_z(v),
            ));
        }
        base
    } else {
        base
    }
}

/// The class-code part of the `<class>[.<attrs>]` field.
pub open spec fn spec_wcode(cla: Seq<char>) -> Seq<char> {
    match spec_find_char(cla, '.') {
        Some(d) => cla.take(d),
        None => cla,
    }
}

/// The attribute part of the `<class>[.<attrs>]` field.
pub open spec fn spec_attr_of(cla: Seq<char>) -> Seq<char> {
    match spec_find_char(cla, '.') {
        Some(d) => cla.skip(d + 1),
        None => Seq::empty(),
    }
}

/// Every irregular token of a line decodes against the lemma.
pub open spec fn spec_irr_ok(lemma: Seq<char>, toks: Seq<Seq<char>>) -> bool {
    forall|k: int|
        0 <= k < toks.len() ==> spec_decode_irregular(lemma, #[trigger] toks[k]) is Some
}

/// The stored (normalized) irregular tokens: each decoded against the
/// lemma and re-encoded.
pub open spec fn spec_irr(lemma: Seq<char>, toks: Seq<Seq<char>>) -> Seq<Seq<char>> {
    toks.map_values(
        |t: Seq<char>|
            spec_encode_irregular(lemma, spec_decode_irregular(lemma, t)->Some_0),
    )
}

/// Every stored irregular token decodes against every variant spelling.
pub open spec fn spec_forms_ok(variants: Seq<Seq<char>>, irr: Seq<Seq<char>>) -> bool {
    forall|i: int, k: int|
        0 <= i < variants.len() && 0 <= k < irr.len() ==> #[trigger] spec_decode_irregular(
            variants[i],
            irr[k],
        ) is Some
}

/// The irregular forms of one variant spelling: each stored token
/// decoded against it, skipping decodings equal to the variant itself.
pub open spec fn spec_decoded_forms(v: Seq<char>, irr: Seq<Seq<char>>) -> Seq<Seq<char>> {
    irr.map_values(
        |t: Seq<char>|
            if spec_decode_irregular(v, t)->Some_0 == v {
                Seq::<Seq<char>>::empty()
            } else {
                seq![spec_decode_irregular(v, t)->Some_0]
            },
    ).flatten()
}

/// The forms contributed by one variant spelling: the variant itself,
/// then its regular inflections, or its irregular decodings when the
/// lexeme has irregular tokens.
pub open spec fn spec_forms_for(
    v: Seq<char>,
    wc: WordClass,
    syl_ok: bool,
    has_pl: bool,
    irr: Seq<Seq<char>>,
) -> Seq<Seq<char>> {
    seq![v] + if irr.len() == 0 {
        spec_regular_forms(wc, syl_ok, has_pl, v)
    } else {
        spec_decoded_forms(v, irr)
    }
}

/// All forms of a lexeme: the contributions of its variant spellings in
/// order.
pub open spec fn spec_build_forms(
    variants: Seq<Seq<char>>,
    wc: WordClass,
    syl_ok: bool,
    has_pl: bool,
    irr: Seq<Seq<char>>,
) -> Seq<Seq<char>> {
    variants.map_values(|v: Seq<char>| spec_forms_for(v, wc, syl_ok, has_pl, irr)).flatten()
}

/// The mathematical content of a lexeme.
#[verifier::ext_equal]
pub struct LexemeView {
    /// The citation form.
    pub lemma: Seq<char>,
    /// The word class.
    pub word_class: WordClass,
    /// The attribute characters.
    pub attr: Seq<char>,
    /// The stored irregular tokens.
    pub irregular_forms: Seq<Seq<char>>,
    /// All surface forms.
    pub forms: Seq<Seq<char>>,
}

/// The lexeme a dictionary line describes, or `None` when the line is
/// malformed: an empty lemma, a missing `:`, an unknown class code, or
/// an irregular token that does not decode against the lemma or one of
/// its variant spellings.
pub open spec fn spec_parse_line(line: Seq<char>) -> Option<LexemeView> {
    let fields = spec_split_char(line, ',');
    if fields.len() == 0 || fields[0].len() == 0 {
        None
    } else {
        let header = fields[0];
        match spec_find_char(header, ':') {
            None => None,
            Some(j) => {
                let lemma = header.take(j);
                let cla = header.skip(j + 1);
                let wcode = spec_wcode(cla);
                let attr = spec_attr_of(cla);
                if lemma.len() == 0 {
                    None
                } else {
                    match WordClass::spec_of_code(wcode) {
                        None => None,
                        Some(wc) => {
                            let toks = fields.skip(1);
                            if !spec_irr_ok(lemma, toks) {
                                None
                            } else {
                                let irr = spec_irr(lemma, toks);
                                let variants = spec_variants(lemma, spec_has_alt_z(attr));
                                if !spec_forms_ok(variants, irr) {
                                    None
                                } else {
                                    Some(
                                        LexemeView {
                                            lemma,
                                            word_class: wc,
                                            attr,
                                            irregular_forms: irr,
                                            forms: spec_build_forms(
                                                variants,
                                                wc,
                                                spec_count_syllables(lemma) < 4,
                                                spec_has_plural(attr),
                                                irr,
                                            ),
                                        },
                                    )
                                }
                            }
                        },
                    }
                }
            },
        }
    }
}

/// The facts that the header of a line has parsed successfully; the
/// loops of `try_from_line` carry them.
spec fn parse_ctx(
    line: Seq<char>,
    fields: Seq<Seq<char>>,
    j: int,
    lemma: Seq<char>,
    cla: Seq<char>,
    wc: WordClass,
) -> bool {
    &&& spec_split_char(line, ',') == fields
    &&& fields.len() > 0
    &&& fields[0].len() > 0
    &&& spec_find_char(fields[0], ':') == Some(j)
    &&& lemma == fields[0].take(j)
    &&& lemma.len() > 0
    &&& cla == fields[0].skip(j + 1)
    &&& WordClass::spec_of_code(spec_wcode(cla)) == Some(wc)
}

/// Word lexeme: one dictionary entry.
#[derive(Clone, Debug)]
pub struct Lexeme {
    /// Lemma word form.
    lemma: String,
    /// Word class.
    word_class: WordClass,
    /// Attributes.
    attr: String,
    /// Irregular forms (encoded).
    irregular_forms: Vec<String>,
    /// All forms.
    forms: Vec<String>,
}

impl View for Lexeme {
    type V = LexemeView;

    closed spec fn view(&self) -> LexemeView {
        LexemeView {
            lemma: self.lemma@,
            word_class: self.word_class,
            attr: self.attr@,
            irregular_forms: str_views(self.irregular_forms@),
            forms: str_views(self.forms@),
        }
    }
}

/// Collect character vectors into strings.
pub(crate) fn to_strings(v: &Vec<Vec<char>>) -> (r: Vec<String>)
    ensures
        str_views(r@) == seq_views(v@),
{
    let mut r: Vec<String> = Vec::new();
    let mut i: usize = 0;
    while i < v.len()
        invariant
            i <= v@.len(),
            str_views(r@) == seq_views(v@.take(i as int)),
        decreases v@.len() - i,
    {
        let s = chars_str(&v[i]);
        proof {
            assert(str_views(r@.push(s)) =~= str_views(r@).push(s@));
            assert(seq_views(v@.take(i + 1 as int)) =~= seq_views(v@.take(i as int)).push(
                v@[i as int]@,
            ));
        }
        r.push(s);
        i = i + 1;
    }
    proof {
        assert(seq_views(v@.take(v@.len() as int)) =~= seq_views(v@));
    }
    r
}

impl Lexeme {
    /// Get lemma as a string slice.
    pub fn lemma(&self) -> (r: &str)
        ensures
            r@ == self@.lemma,
    {
        self.lemma.as_str()
    }

    /// Get the word class.
    pub fn word_class(&self) -> (r: WordClass)
        ensures
            r == self@.word_class,
    {
        self.word_class
    }

    /// Get all forms.
    pub fn forms(&self) -> (r: &Vec<String>)
        ensures
            str_views(r@) == self@.forms,
    {
        &self.forms
    }

    /// Get the attribute characters.
    pub(crate) fn attr_str(&self) -> (r: &str)
        ensures
            r@ == self@.attr,
    {
        self.attr.as_str()
    }

    /// Check if a word (noun) has plural form.
    fn has_plural(&self) -> (r: bool)
        ensures
            r == spec_has_plural(self@.attr),
    {
        let a = str_chars(self.attr.as_str());
        !(contains_char(&a, 's') || contains_char(&a, 'p'))
    }

    /// Check if a word has alternate spelling form (`z => s`).
    fn has_alternate_z(&self) -> (r: bool)
        ensures
            r == spec_has_alt_z(self@.attr),
    {
        let a = str_chars(self.attr.as_str());
        contains_char(&a, 'z')
    }

    /// Get all variant spellings of the lemma.
    pub fn variant_spellings(&self) -> (r: Vec<String>)
        ensures
            str_views(r@) == spec_variants(self@.lemma, spec_has_alt_z(self@.attr)),
    {
        let lc = str_chars(self.lemma.as_str());
        let az = self.has_alternate_z();
        let vs = variants_chars(&lc, az);
        to_strings(&vs)
    }

    /// Parse one dictionary line into a lexeme.
    pub fn try_from_line(line: &str) -> (r: Option<Lexeme>)
        ensures
            r is Some <==> spec_parse_line(line@) is Some,
            r matches Some(lex) ==> Some(lex@) == spec_parse_line(line@),
    {
        let chars = str_chars(line);
        let fields = split_char(&chars, ',');
        if fields.len() == 0 {
            return None;
        }
        let header = &fields[0];
        proof {
            assert(seq_views(fields@)[0] == fields@[0]@);
        }
        if header.len() == 0 {
            return None;
        }
        let j = match find_char(header, ':') {
            Some(j) => j,
            None => { return None },
        };
        let lemma_c = take_prefix(header, j);
        let cla = skip_chars(header, j + 1);
        if lemma_c.len() == 0 {
            return None;
        }
        let dot = find_char(&cla, '.');
        let wcode = match dot {
            Some(d) => take_prefix(&cla, d),
            None => copy_chars(&cla),
        };
        let attr_c = match dot {
            Some(d) => skip_chars(&cla, d + 1),
            None => Vec::new(),
        };
        proof {
            assert(wcode@ == spec_wcode(cla@));
            assert(attr_c@ =~= spec_attr_of(cla@));
        }
        let wc = match WordClass::of_code_chars(&wcode) {
            Some(w) => w,
            None => { return None },
        };
        let ghost toks = seq_views(fields@).skip(1);
        let mut irr: Vec<Vec<char>> = Vec::new();
        let mut k: usize = 1;
        proof {
            assert(parse_ctx(line@, seq_views(fields@), j as int, lemma_c@, cla@, wc));
            assert(toks.take(0) =~= Seq::<Seq<char>>::empty());
            assert(seq_views(irr@) =~= spec_irr(lemma_c@, toks.take(0)));
        }
        while k < fields.len()
            invariant
                1 <= k <= fields@.len(),
                toks == seq_views(fields@).skip(1),
                parse_ctx(line@, seq_views(fields@), j as int, lemma_c@, cla@, wc),
                spec_irr_ok(lemma_c@, toks.take(k - 1)),
                seq_views(irr@) == spec_irr(lemma_c@, toks.take(k - 1)),
            decreases fields@.len() - k,
        {
            proof {
                assert(seq_views(fields@)[k as int] == fields@[k as int]@);
                assert(toks[k - 1] == seq_views(fields@)[k as int]);
            }
            let dec = match decode_irregular(&lemma_c, &fields[k]) {
                Some(d) => d,
                None => {
                    proof {
                        assert(!spec_irr_ok(lemma_c@, seq_views(fields@).skip(1)));
                    }
                    return None;
                },
            };
            let enc = encode_irregular(&lemma_c, &dec);
            proof {
                assert(toks.take(k as int) =~= toks.take(k - 1).push(toks[k - 1]));
                assert(spec_irr(lemma_c@, toks.take(k as int)) =~= spec_irr(
                    lemma_c@,
                    toks.take(k - 1),
                ).push(
                    spec_encode_irregular(
                        lemma_c@,
                        spec_decode_irregular(lemma_c@, toks[k - 1])->Some_0,
                    ),
                ));
                assert(seq_views(irr@.push(enc)) =~= seq_views(irr@).push(enc@));
            }
            irr.push(enc);
            k = k + 1;
        }
        proof {
            assert(toks.take(k - 1) =~= toks);
        }
        let alt_z = contains_char(&attr_c, 'z');
        let variants = variants_chars(&lemma_c, alt_z);
        let syl = count_syllables_chars(&lemma_c);
        let syl_ok = syl < 4;
        let has_pl = !(contains_char(&attr_c, 's') || contains_char(&attr_c, 'p'));
        let ghost vs = seq_views(variants@);
        let ghost irrv = seq_views(irr@);
        let ghost specff = |v: Seq<char>| spec_forms_for(v, wc, syl_ok, has_pl, irrv);
        let mut forms: Vec<String> = Vec::new();
        let mut vi: usize = 0;
        proof {
            assert(vs.take(0) =~= Seq::<Seq<char>>::empty());
            assert(vs.take(0).map_values(specff).flatten() =~= Seq::<Seq<char>>::empty());
            assert(str_views(forms@) =~= Seq::<Seq<char>>::empty());
        }
        proof {
            assert(vs == spec_variants(lemma_c@, spec_has_alt_z(attr_c@)));
        }
        while vi < variants.len()
            invariant
                vi <= variants@.len(),
                vs == seq_views(variants@),
                irrv == seq_views(irr@),
                parse_ctx(line@, seq_views(fields@), j as int, lemma_c@, cla@, wc),
                toks == seq_views(fields@).skip(1),
                attr_c@ == spec_attr_of(cla@),
                spec_irr_ok(lemma_c@, toks),
                irrv == spec_irr(lemma_c@, toks),
                vs == spec_variants(lemma_c@, spec_has_alt_z(attr_c@)),
                specff == (|v: Seq<char>| spec_forms_for(v, wc, syl_ok, has_pl, irrv)),
                spec_forms_ok(vs.take(vi as int), irrv),
                str_views(forms@) == vs.take(vi as int).map_values(specff).flatten(),
            decreases variants@.len() - vi,
        {
            let v = &variants[vi];
            proof {
                assert(vs[vi as int] == variants@[vi as int]@);
            }
            let ghost before = str_views(forms@);
            forms.push(chars_str(v));
            proof {
                assert(str_views(forms@) =~= before.push(v@));
            }
            if irr.len() == 0 {
                let rf = regular_forms(wc, syl_ok, has_pl, v);
                let mut t: usize = 0;
                proof {
                    assert(seq_views(rf@).take(0) =~= Seq::<Seq<char>>::empty());
                    assert(str_views(forms@) =~= before + seq![v@] + seq_views(rf@).take(0));
                }
                while t < rf.len()
                    invariant
                        t <= rf@.len(),
                        str_views(forms@) == before + seq![v@] + seq_views(rf@).take(t as int),
                    decreases rf@.len() - t,
                {
                    let s = chars_str(&rf[t]);
                    proof {
                        assert(str_views(forms@.push(s)) =~= str_views(forms@).push(s@));
                        assert(seq_views(rf@).take(t + 1 as int) =~= seq_views(rf@).take(
                            t as int,
                        ).push(rf@[t as int]@));
                        assert(before + seq![v@] + seq_views(rf@).take(t + 1 as int) =~= (before
                            + seq![v@] + seq_views(rf@).take(t as int)).push(rf@[t as int]@));
                    }
                    forms.push(s);
                    t = t + 1;
                }
                proof {
                    assert(seq_views(rf@).take(rf@.len() as int) =~= seq_views(rf@));
                }
            } else {
                let mut t: usize = 0;
                let ghost decf = |tk: Seq<char>|
                    if spec_decode_irregular(v@, tk)->Some_0 == v@ {
                        Seq::<Seq<char>>::empty()
                    } else {
                        seq![spec_decode_irregular(v@, tk)->Some_0]
                    };
                proof {
                    assert(irrv.take(0).map_values(decf).flatten() =~= Seq::<Seq<char>>::empty());
                    assert(str_views(forms@) =~= before + seq![v@] + irrv.take(0).map_values(
                        decf,
                    ).flatten());
                }
                while t < irr.len()
                    invariant
                        t <= irr@.len(),
                        irrv == seq_views(irr@),
                        vs == seq_views(variants@),
                        vi < variants@.len(),
                        v == &variants@[vi as int],
                        vs[vi as int] == variants@[vi as int]@,
                        parse_ctx(line@, seq_views(fields@), j as int, lemma_c@, cla@, wc),
                        toks == seq_views(fields@).skip(1),
                        attr_c@ == spec_attr_of(cla@),
                        spec_irr_ok(lemma_c@, toks),
                        irrv == spec_irr(lemma_c@, toks),
                        vs == spec_variants(lemma_c@, spec_has_alt_z(attr_c@)),
                        decf == (|tk: Seq<char>|
                            if spec_decode_irregular(v@, tk)->Some_0 == v@ {
                                Seq::<Seq<char>>::empty()
                            } else {
                                seq![spec_decode_irregular(v@, tk)->Some_0]
                            }),
                        forall|k2: int|
                            0 <= k2 < t ==> spec_decode_irregular(v@, #[trigger] irrv[k2]) is Some,
                        str_views(forms@) == before + seq![v@] + irrv.take(t as int).map_values(
                            decf,
                        ).flatten(),
                    decreases irr@.len() - t,
                {
                    proof {
                        assert(irrv[t as int] == irr@[t as int]@);
                    }
                    let dec = match decode_irregular(v, &irr[t]) {
                        Some(d) => d,
                        None => {
                            proof {
                                assert(spec_decode_irregular(vs[vi as int], irrv[t as int])
                                    is None);
                                assert(!spec_forms_ok(vs, irrv));
                            }
                            return None;
                        },
                    };
                    proof {
                        broadcast use Seq::lemma_flatten_push;

                        assert(irrv.take(t + 1 as int) =~= irrv.take(t as int).push(
                            irrv[t as int],
                        ));
                        assert(irrv.take(t + 1 as int).map_values(decf) =~= irrv.take(
                            t as int,
                        ).map_values(decf).push(decf(irrv[t as int])));
                    }
                    if !chars_eq(&dec, v) {
                        let s = chars_str(&dec);
                        proof {
                            assert(str_views(forms@.push(s)) =~= str_views(forms@).push(s@));
                            assert(decf(irrv[t as int]) =~= seq![dec@]);
                            assert(before + seq![v@] + irrv.take(t + 1 as int).map_values(
                                decf,
                            ).flatten() =~= (before + seq![v@] + irrv.take(t as int).map_values(
                                decf,
                            ).flatten()).push(dec@));
                        }
                        forms.push(s);
                    } else {
                        proof {
                            assert(decf(irrv[t as int]) =~= Seq::<Seq<char>>::empty());
                            assert(before + seq![v@] + irrv.take(t + 1 as int).map_values(
                                decf,
                            ).flatten() =~= before + seq![v@] + irrv.take(t as int).map_values(
                                decf,
                            ).flatten());
                        }
                    }
                    t = t + 1;
                }
                proof {
                    assert(irrv.take(irrv.len() as int) =~= irrv);
                    assert(spec_decoded_forms(v@, irrv) == irrv.map_values(decf).flatten());
                }
            }
            proof {
                broadcast use Seq::lemma_flatten_push;

                assert(spec_forms_ok(vs.take(vi + 1 as int), irrv)) by {
                    assert(forall|i2: int|
                        0 <= i2 < vi + 1 ==> #[trigger] vs.take(vi + 1 as int)[i2] == vs[i2]);
                }
                assert(str_views(forms@) =~= before + specff(vs[vi as int]));
                assert(vs.take(vi + 1 as int) =~= vs.take(vi as int).push(vs[vi as int]));
                assert(vs.take(vi + 1 as int).map_values(specff) =~= vs.take(
                    vi as int,
                ).map_values(specff).push(specff(vs[vi as int])));
                assert(vs.take(vi + 1 as int).map_values(specff).flatten() =~= vs.take(
                    vi as int,
                ).map_values(specff).flatten() + specff(vs[vi as int]));
            }
            vi = vi + 1;
        }
        proof {
            assert(vs.take(vs.len() as int) =~= vs);
            assert(spec_build_forms(vs, wc, syl_ok, has_pl, irrv) == vs.map_values(
                specff,
            ).flatten());
        }
        let lex = Lexeme {
            lemma: chars_str(&lemma_c),
            word_class: wc,
            attr: chars_str(&attr_c),
            irregular_forms: to_strings(&irr),
            forms,
        };
        proof {
            assert(lex@ =~~= spec_parse_line(line@)->Some_0);
        }
        Some(lex)
    }
}

/// Strict lexicographic order on words by code point.
pub open spec fn spec_chars_lt(a: Seq<char>, b: Seq<char>) -> bool
    decreases a.len(),
{
    if b.len() == 0 {
        false
    } else if a.len() == 0 {
        true
    } else if a[0] != b[0] {
        (a[0] as u32) < (b[0] as u32)
    } else {
        spec_chars_lt(a.skip(1), b.skip(1))
    }
}

/// Word order is a strict total order: exactly one of `a < b`,
/// `a == b`, `b < a` holds.
pub(crate) proof fn lemma_chars_lt_trichotomy(a: Seq<char>, b: Seq<char>)
    ensures
        a != b ==> (spec_chars_lt(a, b) <==> !spec_chars_lt(b, a)),
        a == b ==> !spec_chars_lt(a, b),
    decreases a.len(),
{
    if a.len() == 0 && b.len() == 0 {
        assert(a =~= b);
    } else if a.len() > 0 && b.len() > 0 {
        if a[0] == b[0] {
            lemma_chars_lt_trichotomy(a.skip(1), b.skip(1));
            if a.skip(1) =~= b.skip(1) {
                assert forall|i: int| 0 <= i < a.len() implies a[i] == b[i] by {
                    if i > 0 {
                        assert(a.skip(1)[i - 1] == a[i]);
                        assert(b.skip(1)[i - 1] == b[i]);
                    }
                }
                assert(a =~= b);
            }
        } else {
            vstd::utf8::char_u32_cast(a[0], a[0] as u32);
            vstd::utf8::char_u32_cast(b[0], b[0] as u32);
        }
    }
}

/// Word order is transitive.
pub(crate) proof fn lemma_chars_lt_trans(a: Seq<char>, b: Seq<char>, c: Seq<char>)
    requires
        spec_chars_lt(a, b),
        spec_chars_lt(b, c),
    ensures
        spec_chars_lt(a, c),
    decreases a.len(),
{
    if a.len() > 0 && b.len() > 0 && c.len() > 0 {
        if a[0] == b[0] && b[0] == c[0] {
            lemma_chars_lt_trans(a.skip(1), b.skip(1), c.skip(1));
        }
    }
}

/// Compare two words lexicographically.
pub(crate) fn chars_lt(a: &Vec<char>, b: &Vec<char>) -> (r: bool)
    ensures
        r == spec_chars_lt(a@, b@),
{
    let mut i: usize = 0;
    proof {
        assert(a@.skip(0) =~= a@);
        assert(b@.skip(0) =~= b@);
    }
    while i < a.len() && i < b.len()
        invariant
            i <= a@.len(),
            i <= b@.len(),
            spec_chars_lt(a@, b@) == spec_chars_lt(a@.skip(i as int), b@.skip(i as int)),
            forall|j: int| 0 <= j < i ==> a@[j] == b@[j],
        decreases a@.len() - i,
    {
        let x = a[i];
        let y = b[i];
        proof {
            assert(a@.skip(i as int)[0] == a@[i as int]);
            assert(b@.skip(i as int)[0] == b@[i as int]);
            assert(a@.skip(i as int).skip(1) =~= a@.skip(i + 1 as int));
            assert(b@.skip(i as int).skip(1) =~= b@.skip(i + 1 as int));
        }
        if x != y {
            return (x as u32) < (y as u32);
        }
        i = i + 1;
    }
    proof {
        if i == a@.len() {
            assert(a@.skip(i as int).len() == 0);
        } else {
            assert(b@.skip(i as int).len() == 0);
        }
    }
    a.len() < b.len()
}

/// Whether a comma-separated list of class codes selects a word class:
/// an empty selection selects everything; an unknown code selects
/// nothing.
pub open spec fn spec_class_selected(fields: Seq<Seq<char>>, wc: WordClass) -> bool
    decreases fields.len(),
{
    if fields.len() == 0 {
        false
    } else {
        match WordClass::spec_of_code(fields[0]) {
            None => false,
            Some(c) => c == wc || spec_class_selected(fields.skip(1), wc),
        }
    }
}

/// Check if a word class should be shown under a class-code selection.
pub fn show_class(classes: &Option<String>, wc: WordClass) -> (r: bool)
    ensures
        r == (match classes {
            Some(s) => spec_class_selected(spec_split_char(s@, ','), wc),
            None => true,
        }),
{
    let s = match classes {
        Some(s) => s,
        None => { return true },
    };
    let chars = str_chars(s.as_str());
    let fields = split_char(&chars, ',');
    let ghost fviews = seq_views(fields@);
    let mut i: usize = 0;
    proof {
        assert(fviews.skip(0) =~= fviews);
    }
    while i < fields.len()
        invariant
            i <= fields@.len(),
            fviews == seq_views(fields@),
            classes is Some,
            chars@ == classes->Some_0@,
            spec_class_selected(spec_split_char(chars@, ','), wc) == spec_class_selected(
                fviews.skip(i as int),
                wc,
            ),
            spec_class_selected(fviews.skip(i as int), wc) ==> fviews.skip(
                i as int,
            ).len() > 0,
        decreases fields@.len() - i,
    {
        proof {
            assert(fviews.skip(i as int)[0] == fields@[i as int]@);
            assert(fviews.skip(i as int).skip(1) =~= fviews.skip(i + 1 as int));
        }
        match WordClass::of_code_chars(&fields[i]) {
            None => {
                return false;
            },
            Some(c) => {
                let same = match (c, wc) {
                    (WordClass::Adjective, WordClass::Adjective) => true,
                    (WordClass::Adverb, WordClass::Adverb) => true,
                    (WordClass::Conjunction, WordClass::Conjunction) => true,
                    (WordClass::Determiner, WordClass::Determiner) => true,
                    (WordClass::Interjection, WordClass::Interjection) => true,
                    (WordClass::Noun, WordClass::Noun) => true,
                    (WordClass::Preposition, WordClass::Preposition) => true,
                    (WordClass::Pronoun, WordClass::Pronoun) => true,
                    (WordClass::Verb, WordClass::Verb) => true,
                    _ => false,
                };
                if same {
                    return true;
                }
            },
        }
        i = i + 1;
    }
    proof {
        assert(fviews.skip(fviews.len() as int) =~= Seq::<Seq<char>>::empty());
    }
    false
}

/// Each variant spelling stands among the built forms.
proof fn lemma_variants_in_build(
    variants: Seq<Seq<char>>,
    wc: WordClass,
    syl_ok: bool,
    has_pl: bool,
    irr: Seq<Seq<char>>,
    i: int,
)
    requires
        0 <= i < variants.len(),
    ensures
        spec_build_forms(variants, wc, syl_ok, has_pl, irr).contains(variants[i]),
    decreases i,
{
    let m = variants.map_values(|v: Seq<char>| spec_forms_for(v, wc, syl_ok, has_pl, irr));
    let built = m.flatten();
    assert(built == m.first() + m.drop_first().flatten());
    if i == 0 {
        assert(m.first()[0] == variants[0]);
        assert(built[0] == variants[0]);
    } else {
        let rest = variants.drop_first();
        assert(m.drop_first() =~= rest.map_values(
            |v: Seq<char>| spec_forms_for(v, wc, syl_ok, has_pl, irr),
        ));
        lemma_variants_in_build(rest, wc, syl_ok, has_pl, irr, i - 1);
        let inner = spec_build_forms(rest, wc, syl_ok, has_pl, irr);
        let jdx = choose|j: int| 0 <= j < inner.len() && inner[j] == rest[i - 1];
        assert(built[m.first().len() + jdx] == inner[jdx]);
        assert(rest[i - 1] == variants[i]);
    }
}

/// Every variant spelling of a parsed lexeme's lemma is among its forms.
pub proof fn lemma_variant_spellings_in_forms(line: Seq<char>)
    requires
        spec_parse_line(line) is Some,
    ensures
        ({
            let lv = spec_parse_line(line)->Some_0;
            let variants = spec_variants(lv.lemma, spec_has_alt_z(lv.attr));
            forall|i: int| 0 <= i < variants.len() ==> #[trigger] lv.forms.contains(variants[i])
        }),
{
    let lv = spec_parse_line(line)->Some_0;
    let variants = spec_variants(lv.lemma, spec_has_alt_z(lv.attr));
    assert forall|i: int| 0 <= i < variants.len() implies #[trigger] lv.forms.contains(
        variants[i],
    ) by {
        lemma_variants_in_build(
            variants,
            lv.word_class,
            spec_count_syllables(lv.lemma) < 4,
            spec_has_plural(lv.attr),
            lv.irregular_forms,
            i,
        );
    }
}

} // verus!
