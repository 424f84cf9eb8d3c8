//! Table-driven decomposition of apostrophe contractions.
//!
//! The table is ordered: specific full words first, then suffix
//! patterns, with the bare-apostrophe fallbacks last.  Matching is
//! ASCII-case-insensitive, and any of the four apostrophe forms are
//! treated as equal.

use vstd::prelude::*;
use crate::unicode::{ascii_lower, is_apostrophe, spec_ascii_lower, spec_is_apostrophe};
use crate::word::{
    copy_chars, seq_views, skip_chars, str_views, take_prefix, to_strings,
};

verus! {

/// Word contractions.
pub(crate) enum Contraction {
    /// The whole word matches; expand to the two words.
    Full(Vec<char>, Vec<char>, Vec<char>),
    /// The word starts with the pattern; expand to the rest plus the
    /// expansion.
    Prefix(Vec<char>, Vec<char>),
    /// The word ends with the pattern; expand to the base plus the
    /// expansion.
    Suffix(Vec<char>, Vec<char>),
    /// The word ends with the pattern; replace the pattern.
    SuffixReplacement(Vec<char>, Vec<char>),
}

/// The mathematical content of a contraction table entry.
#[verifier::ext_equal]
pub enum ConView {
    /// The whole word matches; expand to the two words.
    Full(Seq<char>, Seq<char>, Seq<char>),
    /// The word starts with the pattern.
    Prefix(Seq<char>, Seq<char>),
    /// The word ends with the pattern.
    Suffix(Seq<char>, Seq<char>),
    /// The word ends with the pattern; replace it.
    SuffixReplacement(Seq<char>, Seq<char>),
}

impl View for Contraction {
    type V = ConView;

    closed spec fn view(&self) -> ConView {
        match self {
            Contraction::Full(c, a, b) => ConView::Full(c@, a@, b@),
            Contraction::Prefix(p, e) => ConView::Prefix(p@, e@),
            Contraction::Suffix(s, e) => ConView::Suffix(s@, e@),
            Contraction::SuffixReplacement(s, e) => ConView::SuffixReplacement(s@, e@),
        }
    }
}

/// Two characters match in a contraction pattern: equal after ASCII
/// lowering, or both apostrophes.
pub open spec fn spec_chars_match(a: char, b: char) -> bool {
    spec_ascii_lower(a) == spec_ascii_lower(b) || (spec_is_apostrophe(a) && spec_is_apostrophe(b))
}

/// A contraction pattern equals a word: same length, characters match
/// position by position.
pub open spec fn spec_equals_contraction(p: Seq<char>, w: Seq<char>) -> bool {
    p.len() == w.len() && forall|i: int| 0 <= i < p.len() ==> spec_chars_match(#[trigger] p[i], w[i])
}

/// Check if a contraction part equals a string.
pub(crate) fn equals_contraction(part: &Vec<char>, word: &Vec<char>) -> (r: bool)
    ensures
        r == spec_equals_contraction(part@, word@),
{
    if part.len() != word.len() {
        return false;
    }
    let mut i: usize = 0;
    while i < part.len()
        invariant
            i <= part@.len(),
            part@.len() == word@.len(),
            forall|j: int| 0 <= j < i ==> spec_chars_match(#[trigger] part@[j], word@[j]),
        decreases part@.len() - i,
    {
        let a = ascii_lower(part[i]);
        let b = ascii_lower(word[i]);
        if !(a == b || (is_apostrophe(a) && is_apostrophe(b))) {
            proof {
                assert(!spec_chars_match(part@[i as int], word@[i as int]));
            }
            return false;
        }
        i = i + 1;
    }
    true
}

/// What one table entry pushes on the work stack for a word, if it
/// matches: the entry's outputs, last to be processed first.
pub open spec fn spec_expand(c: ConView, w: Seq<char>) -> Option<Seq<Seq<char>>> {
    match c {
        ConView::Full(p, a, b) => if spec_equals_contraction(p, w) {
            Some(seq![b, a])
        } else {
            None
        },
        ConView::Prefix(p, e) => if w.len() > p.len() && spec_equals_contraction(
            p,
            w.take(p.len() as int),
        ) {
            Some(seq![w.skip(p.len() as int), e])
        } else {
            None
        },
        ConView::Suffix(p, e) => if p.len() >= 1 && w.len() >= p.len() && spec_equals_contraction(
            p,
            w.skip(w.len() - p.len()),
        ) {
            Some(seq![e, w.take(w.len() - p.len())])
        } else {
            None
        },
        ConView::SuffixReplacement(p, e) => if p.len() >= 1 && w.len() >= p.len()
            && spec_equals_contraction(p, w.skip(w.len() - p.len())) {
            Some(seq![w.take(w.len() - p.len()) + e])
        } else {
            None
        },
    }
}

impl Contraction {
    /// Try to expand the contraction, pushing its outputs on the work
    /// stack.
    pub(crate) fn try_expand(&self, words: &mut Vec<Vec<char>>, word: &Vec<char>) -> (r: bool)
        ensures
            r == (spec_expand(self@, word@) is Some),
            r ==> seq_views(final(words)@) == seq_views(old(words)@) + spec_expand(
                self@,
                word@,
            )->Some_0,
            !r ==> final(words)@ == old(words)@,
    {
        match self {
            Contraction::Full(c, a, b) => {
                if equals_contraction(c, word) {
                    let pb = copy_chars(b);
                    let pa = copy_chars(a);
                    proof {
                        assert(seq_views(words@.push(pb).push(pa)) =~= seq_views(words@) + seq![
                            b@,
                            a@,
                        ]);
                    }
                    words.push(pb);
                    words.push(pa);
                    return true;
                }
                false
            },
            Contraction::Prefix(p, e) => {
                if word.len() > p.len() {
                    let wa = take_prefix(word, p.len());
                    if equals_contraction(p, &wa) {
                        let wb = skip_chars(word, p.len());
                        let pe = copy_chars(e);
                        proof {
                            assert(seq_views(words@.push(wb).push(pe)) =~= seq_views(words@)
                                + seq![word@.skip(p@.len() as int), e@]);
                        }
                        words.push(wb);
                        words.push(pe);
                        return true;
                    }
                }
                false
            },
            Contraction::Suffix(s, e) => {
                if s.len() >= 1 && word.len() >= s.len() {
                    let cut = word.len() - s.len();
                    let wb = skip_chars(word, cut);
                    if equals_contraction(s, &wb) {
                        let wa = take_prefix(word, cut);
                        let pe = copy_chars(e);
                        proof {
                            assert(seq_views(words@.push(pe).push(wa)) =~= seq_views(words@)
                                + seq![e@, word@.take(word@.len() - s@.len())]);
                        }
                        words.push(pe);
                        words.push(wa);
                        return true;
                    }
                }
                false
            },
            Contraction::SuffixReplacement(s, e) => {
                if s.len() >= 1 && word.len() >= s.len() {
                    let cut = word.len() - s.len();
                    let wb = skip_chars(word, cut);
                    if equals_contraction(s, &wb) {
                        let mut wa = take_prefix(word, cut);
                        crate::word::append_chars(&mut wa, e);
                        proof {
                            assert(seq_views(words@.push(wa)) =~= seq_views(words@) + seq![
                                word@.take(word@.len() - s@.len()) + e@,
                            ]);
                        }
                        words.push(wa);
                        return true;
                    }
                }
                false
            },
        }
    }
}

/// The ordered contraction table.
pub open spec fn spec_table() -> Seq<ConView> {
    seq![
        ConView::Full(seq!['a', 'i', 'n', '\u{2019}', 't'], seq!['a', 'm'], seq!['n', 'o', 't']),
        ConView::Full(seq!['c', 'a', 'n', '\u{2019}', 't'], seq!['c', 'a', 'n'], seq!['n', 'o', 't']),
        ConView::Full(seq!['s', 'h', 'a', 'n', '\u{2019}', 't'], seq!['s', 'h', 'a', 'l', 'l'], seq!['n', 'o', 't']),
        ConView::Full(seq!['w', 'o', 'n', '\u{2019}', 't'], seq!['w', 'i', 'l', 'l'], seq!['n', 'o', 't']),
        ConView::Suffix(seq!['n', '\u{2019}', 't'], seq!['n', 'o', 't']),
        ConView::Suffix(seq!['\u{2019}', 'v', 'e'], seq!['h', 'a', 'v', 'e']),
        ConView::Suffix(seq!['\u{2019}', 'l', 'l'], seq!['w', 'i', 'l', 'l']),
        ConView::Full(seq!['I', '\u{2019}', 'm'], seq!['I'], seq!['a', 'm']),
        ConView::Suffix(seq!['\u{2019}', 'r', 'e'], seq!['a', 'r', 'e']),
        ConView::Full(seq!['h', 'e', '\u{2019}', 's'], seq!['h', 'e'], seq!['i', 's']),
        ConView::Full(seq!['i', 't', '\u{2019}', 's'], seq!['i', 't'], seq!['i', 's']),
        ConView::Full(seq!['s', 'h', 'e', '\u{2019}', 's'], seq!['s', 'h', 'e'], seq!['i', 's']),
        ConView::Full(seq!['t', 'h', 'a', 't', '\u{2019}', 's'], seq!['t', 'h', 'a', 't'], seq!['i', 's']),
        ConView::Full(seq!['t', 'h', 'e', 'r', 'e', '\u{2019}', 's'], seq!['t', 'h', 'e', 'r', 'e'], seq!['i', 's']),
        ConView::Full(seq!['w', 'h', 'a', 't', '\u{2019}', 's'], seq!['w', 'h', 'a', 't'], seq!['i', 's']),
        ConView::Full(seq!['w', 'h', 'o', '\u{2019}', 's'], seq!['w', 'h', 'o'], seq!['i', 's']),
        ConView::Full(seq!['\u{2019}', 't', 'i', 's'], seq!['i', 't'], seq!['i', 's']),
        ConView::Full(seq!['\u{2019}', 't', 'w', 'a', 's'], seq!['i', 't'], seq!['w', 'a', 's']),
        ConView::Full(seq!['\u{2019}', 't', 'w', 'i', 'l', 'l'], seq!['i', 't'], seq!['w', 'i', 'l', 'l']),
        ConView::Full(seq!['m', '\u{2019}', 'd', 'e', 'a', 'r'], seq!['m', 'y'], seq!['d', 'e', 'a', 'r']),
        ConView::Full(seq!['m', '\u{2019}', 'l', 'a', 'd', 'y'], seq!['m', 'y'], seq!['l', 'a', 'd', 'y']),
        ConView::Full(seq!['m', '\u{2019}', 'l', 'o', 'r', 'd'], seq!['m', 'y'], seq!['l', 'o', 'r', 'd']),
        ConView::Suffix(seq!['\u{2019}', 'd'], seq!['w', 'o', 'u', 'l', 'd']),
        ConView::Suffix(seq!['\u{2019}', 's'], Seq::empty()),
        ConView::SuffixReplacement(seq!['n', '\u{2019}'], seq!['n', 'g']),
        ConView::Suffix(seq!['\u{2019}'], Seq::empty()),
        ConView::Prefix(seq!['\u{2019}'], seq!['\u{2019}']),
    ]
}

/// Build the ordered contraction table.
pub(crate) fn contraction_table() -> (t: Vec<Contraction>)
    ensures
        t@.map_values(|c: Contraction| c@) == spec_table(),
{
    let mut t: Vec<Contraction> = Vec::new();
    t.push(Contraction::Full(vec!['a', 'i', 'n', '\u{2019}', 't'], vec!['a', 'm'], vec!['n', 'o', 't']));
    t.push(Contraction::Full(vec!['c', 'a', 'n', '\u{2019}', 't'], vec!['c', 'a', 'n'], vec!['n', 'o', 't']));
    t.push(Contraction::Full(vec!['s', 'h', 'a', 'n', '\u{2019}', 't'], vec!['s', 'h', 'a', 'l', 'l'], vec!['n', 'o', 't']));
    t.push(Contraction::Full(vec!['w', 'o', 'n', '\u{2019}', 't'], vec!['w', 'i', 'l', 'l'], vec!['n', 'o', 't']));
    t.push(Contraction::Suffix(vec!['n', '\u{2019}', 't'], vec!['n', 'o', 't']));
    t.push(Contraction::Suffix(vec!['\u{2019}', 'v', 'e'], vec!['h', 'a', 'v', 'e']));
    t.push(Contraction::Suffix(vec!['\u{2019}', 'l', 'l'], vec!['w', 'i', 'l', 'l']));
    t.push(Contraction::Full(vec!['I', '\u{2019}', 'm'], vec!['I'], vec!['a', 'm']));
    t.push(Contraction::Suffix(vec!['\u{2019}', 'r', 'e'], vec!['a', 'r', 'e']));
    t.push(Contraction::Full(vec!['h', 'e', '\u{2019}', 's'], vec!['h', 'e'], vec!['i', 's']));
    t.push(Contraction::Full(vec!['i', 't', '\u{2019}', 's'], vec!['i', 't'], vec!['i', 's']));
    t.push(Contraction::Full(vec!['s', 'h', 'e', '\u{2019}', 's'], vec!['s', 'h', 'e'], vec!['i', 's']));
    t.push(Contraction::Full(vec!['t', 'h', 'a', 't', '\u{2019}', 's'], vec!['t', 'h', 'a', 't'], vec!['i', 's']));
    t.push(Contraction::Full(vec!['t', 'h', 'e', 'r', 'e', '\u{2019}', 's'], vec!['t', 'h', 'e', 'r', 'e'], vec!['i', 's']));
    t.push(Contraction::Full(vec!['w', 'h', 'a', 't', '\u{2019}', 's'], vec!['w', 'h', 'a', 't'], vec!['i', 's']));
    t.push(Contraction::Full(vec!['w', 'h', 'o', '\u{2019}', 's'], vec!['w', 'h', 'o'], vec!['i', 's']));
    t.push(Contraction::Full(vec!['\u{2019}', 't', 'i', 's'], vec!['i', 't'], vec!['i', 's']));
    t.push(Contraction::Full(vec!['\u{2019}', 't', 'w', 'a', 's'], vec!['i', 't'], vec!['w', 'a', 's']));
    t.push(Contraction::Full(vec!['\u{2019}', 't', 'w', 'i', 'l', 'l'], vec!['i', 't'], vec!['w', 'i', 'l', 'l']));
    t.push(Contraction::Full(vec!['m', '\u{2019}', 'd', 'e', 'a', 'r'], vec!['m', 'y'], vec!['d', 'e', 'a', 'r']));
    t.push(Contraction::Full(vec!['m', '\u{2019}', 'l', 'a', 'd', 'y'], vec!['m', 'y'], vec!['l', 'a', 'd', 'y']));
    t.push(Contraction::Full(vec!['m', '\u{2019}', 'l', 'o', 'r', 'd'], vec!['m', 'y'], vec!['l', 'o', 'r', 'd']));
    t.push(Contraction::Suffix(vec!['\u{2019}', 'd'], vec!['w', 'o', 'u', 'l', 'd']));
    t.push(Contraction::Suffix(vec!['\u{2019}', 's'], Vec::new()));
    t.push(Contraction::SuffixReplacement(vec!['n', '\u{2019}'], vec!['n', 'g']));
    t.push(Contraction::Suffix(vec!['\u{2019}'], Vec::new()));
    t.push(Contraction::Prefix(vec!['\u{2019}'], vec!['\u{2019}']));
    proof {
        assert(t@.map_values(|c: Contraction| c@) =~~= spec_table());
    }
    t
}

/// The first matching entry's outputs, scanning the given entries in
/// order.
pub open spec fn spec_match_in(tbl: Seq<ConView>, w: Seq<char>) -> Option<Seq<Seq<char>>>
    decreases tbl.len(),
{
    if tbl.len() == 0 {
        None
    } else {
        match spec_expand(tbl[0], w) {
            Some(p) => Some(p),
            None => spec_match_in(tbl.drop_first(), w),
        }
    }
}

/// What the contraction table makes of a word: the outputs of the first
/// matching entry, or nothing when no entry matches.
pub open spec fn spec_match_table(w: Seq<char>) -> Option<Seq<Seq<char>>> {
    spec_match_in(spec_table(), w)
}

/// No entry at or past `i` of the table matches the word.
proof fn lemma_match_in_step(tbl: Seq<ConView>, w: Seq<char>, i: int)
    requires
        0 <= i <= tbl.len(),
        forall|j: int| 0 <= j < i ==> spec_expand(#[trigger] tbl[j], w) is None,
    ensures
        spec_match_in(tbl, w) == spec_match_in(tbl.skip(i), w),
    decreases i,
{
    if i > 0 {
        lemma_match_in_step(tbl, w, i - 1);
        let t1 = tbl.skip(i - 1);
        assert(t1[0] == tbl[i - 1]);
        assert(spec_expand(tbl[i - 1], w) is None);
        assert(spec_match_in(t1, w) == spec_match_in(t1.drop_first(), w));
        assert(t1.drop_first() =~= tbl.skip(i));
        assert(spec_match_in(tbl.skip(i), w) == spec_match_in(t1.drop_first(), w));
    } else {
        assert(tbl.skip(0) =~= tbl);
    }
}

/// Split one contraction against the table, in order.
pub(crate) fn split_contraction(words: &mut Vec<Vec<char>>, word: &Vec<char>) -> (r: bool)
    ensures
        r == (spec_match_table(word@) is Some),
        r ==> seq_views(final(words)@) == seq_views(old(words)@) + spec_match_table(
            word@,
        )->Some_0,
        !r ==> final(words)@ == old(words)@,
{
    let table = contraction_table();
    let mut i: usize = 0;
    proof {
        assert(spec_table().skip(0) =~= spec_table());
    }
    while i < table.len()
        invariant
            i <= table@.len(),
            table@.map_values(|c: Contraction| c@) == spec_table(),
            words@ == old(words)@,
            forall|j: int| 0 <= j < i ==> spec_expand(#[trigger] spec_table()[j], word@) is None,
        decreases table@.len() - i,
    {
        proof {
            assert(table@.map_values(|c: Contraction| c@)[i as int] == table@[i as int]@);
        }
        if table[i].try_expand(words, word) {
            proof {
                lemma_match_in_step(spec_table(), word@, i as int);
                assert(spec_table().skip(i as int)[0] == spec_table()[i as int]);
            }
            return true;
        }
        i = i + 1;
    }
    proof {
        lemma_match_in_step(spec_table(), word@, spec_table().len() as int);
        assert(spec_table().skip(spec_table().len() as int) =~= Seq::<ConView>::empty());
    }
    false
}


/// The number of apostrophe characters in a word.
pub open spec fn ap_count(s: Seq<char>) -> nat
    decreases s.len(),
{
    if s.len() == 0 {
        0
    } else {
        ap_count(s.drop_last()) + (if spec_is_apostrophe(s.last()) {
            1nat
        } else {
            0nat
        })
    }
}

/// A word has no apostrophes exactly when its count is zero.
proof fn lemma_ap_zero(s: Seq<char>)
    requires
        forall|i: int| 0 <= i < s.len() ==> !spec_is_apostrophe(#[trigger] s[i]),
    ensures
        ap_count(s) == 0,
    decreases s.len(),
{
    if s.len() > 0 {
        assert forall|i: int| 0 <= i < s.drop_last().len() implies !spec_is_apostrophe(
            #[trigger] s.drop_last()[i],
        ) by {
            assert(s.drop_last()[i] == s[i]);
        }
        lemma_ap_zero(s.drop_last());
    }
}

/// A word with exactly one apostrophe position has count one.
proof fn lemma_ap_single(s: Seq<char>, j: int)
    requires
        0 <= j < s.len(),
        spec_is_apostrophe(s[j]),
        forall|i: int| 0 <= i < s.len() && i != j ==> !spec_is_apostrophe(#[trigger] s[i]),
    ensures
        ap_count(s) == 1,
    decreases s.len(),
{
    if j == s.len() - 1 {
        assert forall|i: int| 0 <= i < s.drop_last().len() implies !spec_is_apostrophe(
            #[trigger] s.drop_last()[i],
        ) by {
            assert(s.drop_last()[i] == s[i]);
        }
        lemma_ap_zero(s.drop_last());
    } else {
        assert(s.drop_last()[j] == s[j]);
        assert forall|i: int| 0 <= i < s.drop_last().len() && i != j implies !spec_is_apostrophe(
            #[trigger] s.drop_last()[i],
        ) by {
            assert(s.drop_last()[i] == s[i]);
        }
        lemma_ap_single(s.drop_last(), j);
        assert(!spec_is_apostrophe(s.last()));
    }
}

/// If a word has apostrophe count zero, no position holds one.
proof fn lemma_ap_zero_rev(s: Seq<char>, i: int)
    requires
        ap_count(s) == 0,
        0 <= i < s.len(),
    ensures
        !spec_is_apostrophe(s[i]),
    decreases s.len(),
{
    if i == s.len() - 1 {
    } else {
        assert(s.drop_last()[i] == s[i]);
        lemma_ap_zero_rev(s.drop_last(), i);
    }
}

/// Apostrophe counts add over concatenation.
proof fn lemma_ap_concat(a: Seq<char>, b: Seq<char>)
    ensures
        ap_count(a + b) == ap_count(a) + ap_count(b),
    decreases b.len(),
{
    if b.len() == 0 {
        assert(a + b =~= a);
    } else {
        assert((a + b).drop_last() =~= a + b.drop_last());
        assert((a + b).last() == b.last());
        lemma_ap_concat(a, b.drop_last());
    }
}

/// Matching words have the same apostrophe count.
proof fn lemma_equals_ap(p: Seq<char>, w: Seq<char>)
    requires
        spec_equals_contraction(p, w),
    ensures
        ap_count(w) == ap_count(p),
    decreases p.len(),
{
    if p.len() > 0 {
        let p1 = p.drop_last();
        let w1 = w.drop_last();
        assert forall|i: int| 0 <= i < p1.len() implies spec_chars_match(
            #[trigger] p1[i],
            w1[i],
        ) by {
            assert(p1[i] == p[i] && w1[i] == w[i]);
            assert(spec_chars_match(p[i], w[i]));
        }
        lemma_equals_ap(p1, w1);
        assert(spec_chars_match(p[p.len() - 1], w[p.len() - 1]));
        assert(spec_is_apostrophe(p.last()) == spec_is_apostrophe(w.last()));
    }
}

/// The termination measure of one work-stack word.
pub open spec fn m_word(w: Seq<char>) -> nat {
    if w.len() == 1 && spec_is_apostrophe(w[0]) {
        4
    } else {
        12 * ap_count(w) + w.len() + 1
    }
}

/// The measure never exceeds its general formula.
proof fn lemma_m_bound(w: Seq<char>)
    ensures
        m_word(w) <= 12 * ap_count(w) + w.len() + 1,
        m_word(w) >= 1,
{
    reveal_with_fuel(ap_count, 3);
    if w.len() == 1 && spec_is_apostrophe(w[0]) {
        assert(w.drop_last() =~= Seq::<char>::empty());
        assert(ap_count(w) == 1);
    }
}

/// The total measure of the work stack.
pub open spec fn sum_m(ws: Seq<Seq<char>>) -> nat
    decreases ws.len(),
{
    if ws.len() == 0 {
        0
    } else {
        sum_m(ws.drop_last()) + m_word(ws.last())
    }
}

/// Stack measures add over concatenation.
proof fn lemma_sum_m_concat(a: Seq<Seq<char>>, b: Seq<Seq<char>>)
    ensures
        sum_m(a + b) == sum_m(a) + sum_m(b),
    decreases b.len(),
{
    if b.len() == 0 {
        assert(a + b =~= a);
    } else {
        assert((a + b).drop_last() =~= a + b.drop_last());
        assert((a + b).last() == b.last());
        lemma_sum_m_concat(a, b.drop_last());
    }
}

/// An entry whose every expansion strictly shrinks the measure.
spec fn con_ok(c: ConView) -> bool {
    forall|w: Seq<char>|
        (#[trigger] spec_expand(c, w)) is Some ==> sum_m(spec_expand(c, w)->Some_0) < m_word(w)
}

/// A full-word entry shrinks the measure.
proof fn lemma_full_ok(p: Seq<char>, a: Seq<char>, b: Seq<char>)
    requires
        ap_count(p) == 1,
        p.len() >= 3,
        ap_count(a) == 0,
        ap_count(b) == 0,
        a.len() + b.len() < p.len() + 11,
    ensures
        con_ok(ConView::Full(p, a, b)),
{
    assert forall|w: Seq<char>| (#[trigger] spec_expand(ConView::Full(p, a, b), w)) is Some implies
        sum_m(spec_expand(ConView::Full(p, a, b), w)->Some_0) < m_word(w) by {
        reveal_with_fuel(sum_m, 4);
        lemma_equals_ap(p, w);
        let ps = seq![b, a];
        assert(ps.drop_last() =~= seq![b]);
        assert(seq![b].drop_last() =~= Seq::<Seq<char>>::empty());
        if a.len() == 1 && spec_is_apostrophe(a[0]) {
            lemma_ap_zero_rev(a, 0);
        }
        if b.len() == 1 && spec_is_apostrophe(b[0]) {
            lemma_ap_zero_rev(b, 0);
        }
        assert(sum_m(ps) == m_word(b) + m_word(a));
        assert(m_word(a) == a.len() + 1);
        assert(m_word(b) == b.len() + 1);
        assert(m_word(w) == 12 + w.len() + 1);
    }
}

/// A suffix entry shrinks the measure.
proof fn lemma_suffix_ok(p: Seq<char>, e: Seq<char>)
    requires
        ap_count(p) == 1,
        ap_count(e) == 0,
        e.len() < p.len() + 11,
        p.len() >= 1,
        p.len() == 1 ==> e.len() <= 1,
    ensures
        con_ok(ConView::Suffix(p, e)),
{
    assert forall|w: Seq<char>| (#[trigger] spec_expand(ConView::Suffix(p, e), w)) is Some implies
        sum_m(spec_expand(ConView::Suffix(p, e), w)->Some_0) < m_word(w) by {
        reveal_with_fuel(sum_m, 4);
        let cut = w.len() - p.len();
        let wa = w.take(cut);
        let wb = w.skip(cut);
        lemma_equals_ap(p, wb);
        assert(wa + wb =~= w);
        lemma_ap_concat(wa, wb);
        assert(ap_count(w) == ap_count(wa) + 1);
        let ps = seq![e, wa];
        assert(ps.drop_last() =~= seq![e]);
        assert(seq![e].drop_last() =~= Seq::<Seq<char>>::empty());
        assert(sum_m(ps) == m_word(e) + m_word(wa));
        if e.len() == 1 && spec_is_apostrophe(e[0]) {
            lemma_ap_zero_rev(e, 0);
        }
        assert(m_word(e) == e.len() + 1);
        lemma_m_bound(wa);
        if w.len() == 1 && spec_is_apostrophe(w[0]) {
            assert(p.len() == 1);
            assert(wa =~= Seq::<char>::empty());
            assert(m_word(wa) == 1);
            assert(sum_m(ps) <= 3);
            assert(m_word(w) == 4);
        } else {
            assert(m_word(w) == 12 * ap_count(w) + w.len() + 1);
            assert(m_word(wa) <= 12 * ap_count(wa) + wa.len() + 1);
        }
    }
}

/// A suffix-replacement entry shrinks the measure.
proof fn lemma_suffix_repl_ok(p: Seq<char>, e: Seq<char>)
    requires
        ap_count(p) == 1,
        ap_count(e) == 0,
        e.len() < p.len() + 12,
        p.len() >= 2,
    ensures
        con_ok(ConView::SuffixReplacement(p, e)),
{
    assert forall|w: Seq<char>|
        (#[trigger] spec_expand(ConView::SuffixReplacement(p, e), w)) is Some implies sum_m(
        spec_expand(ConView::SuffixReplacement(p, e), w)->Some_0,
    ) < m_word(w) by {
        reveal_with_fuel(sum_m, 4);
        let cut = w.len() - p.len();
        let wa = w.take(cut);
        let wb = w.skip(cut);
        lemma_equals_ap(p, wb);
        assert(wa + wb =~= w);
        lemma_ap_concat(wa, wb);
        assert(ap_count(w) == ap_count(wa) + 1);
        lemma_ap_concat(wa, e);
        let out = wa + e;
        let ps = seq![out];
        assert(ps.drop_last() =~= Seq::<Seq<char>>::empty());
        assert(sum_m(ps) == m_word(out));
        lemma_m_bound(out);
        assert(w.len() >= 2);
        assert(m_word(w) == 12 * ap_count(w) + w.len() + 1);
        assert(m_word(out) <= 12 * ap_count(wa) + wa.len() + e.len() + 1);
    }
}

/// The nested-quote prefix entry shrinks the measure.
proof fn lemma_prefix_ok(p: Seq<char>, e: Seq<char>)
    requires
        p.len() == 1,
        ap_count(p) == 1,
        e.len() == 1,
        spec_is_apostrophe(e[0]),
    ensures
        con_ok(ConView::Prefix(p, e)),
{
    assert forall|w: Seq<char>| (#[trigger] spec_expand(ConView::Prefix(p, e), w)) is Some implies
        sum_m(spec_expand(ConView::Prefix(p, e), w)->Some_0) < m_word(w) by {
        reveal_with_fuel(sum_m, 4);
        let wp = w.take(1);
        let wb = w.skip(1);
        lemma_equals_ap(p, wp);
        assert(wp + wb =~= w);
        lemma_ap_concat(wp, wb);
        assert(ap_count(w) == 1 + ap_count(wb));
        let ps = seq![wb, e];
        assert(ps.drop_last() =~= seq![wb]);
        assert(seq![wb].drop_last() =~= Seq::<Seq<char>>::empty());
        assert(sum_m(ps) == m_word(wb) + m_word(e));
        assert(m_word(e) == 4);
        lemma_m_bound(wb);
        assert(w.len() >= 2);
        assert(m_word(w) == 12 * ap_count(w) + w.len() + 1);
        assert(m_word(wb) <= 12 * ap_count(wb) + wb.len() + 1);
    }
}

/// Every entry of the table shrinks the measure.
proof fn lemma_table_ok()
    ensures
        forall|i: int| 0 <= i < spec_table().len() ==> con_ok(#[trigger] spec_table()[i]),
{
    assert(con_ok(spec_table()[0])) by {
        let p = seq!['a', 'i', 'n', '\u{2019}', 't'];
        let a = seq!['a', 'm'];
        let b = seq!['n', 'o', 't'];
        lemma_ap_single(p, 3);
        lemma_ap_zero(a);
        lemma_ap_zero(b);
        lemma_full_ok(p, a, b);
    }
    assert(con_ok(spec_table()[1])) by {
        let p = seq!['c', 'a', 'n', '\u{2019}', 't'];
        let a = seq!['c', 'a', 'n'];
        let b = seq!['n', 'o', 't'];
        lemma_ap_single(p, 3);
        lemma_ap_zero(a);
        lemma_ap_zero(b);
        lemma_full_ok(p, a, b);
    }
    assert(con_ok(spec_table()[2])) by {
        let p = seq!['s', 'h', 'a', 'n', '\u{2019}', 't'];
        let a = seq!['s', 'h', 'a', 'l', 'l'];
        let b = seq!['n', 'o', 't'];
        lemma_ap_single(p, 4);
        lemma_ap_zero(a);
        lemma_ap_zero(b);
        lemma_full_ok(p, a, b);
    }
    assert(con_ok(spec_table()[3])) by {
        let p = seq!['w', 'o', 'n', '\u{2019}', 't'];
        let a = seq!['w', 'i', 'l', 'l'];
        let b = seq!['n', 'o', 't'];
        lemma_ap_single(p, 3);
        lemma_ap_zero(a);
        lemma_ap_zero(b);
        lemma_full_ok(p, a, b);
    }
    assert(con_ok(spec_table()[4])) by {
        let p = seq!['n', '\u{2019}', 't'];
        let e = seq!['n', 'o', 't'];
        lemma_ap_single(p, 1);
        lemma_ap_zero(e);
        lemma_suffix_ok(p, e);
    }
    assert(con_ok(spec_table()[5])) by {
        let p = seq!['\u{2019}', 'v', 'e'];
        let e = seq!['h', 'a', 'v', 'e'];
        lemma_ap_single(p, 0);
        lemma_ap_zero(e);
        lemma_suffix_ok(p, e);
    }
    assert(con_ok(spec_table()[6])) by {
        let p = seq!['\u{2019}', 'l', 'l'];
        let e = seq!['w', 'i', 'l', 'l'];
        lemma_ap_single(p, 0);
        lemma_ap_zero(e);
        lemma_suffix_ok(p, e);
    }
    assert(con_ok(spec_table()[7])) by {
        let p = seq!['I', '\u{2019}', 'm'];
        let a = seq!['I'];
        let b = seq!['a', 'm'];
        lemma_ap_single(p, 1);
        lemma_ap_zero(a);
        lemma_ap_zero(b);
        lemma_full_ok(p, a, b);
    }
    assert(con_ok(spec_table()[8])) by {
        let p = seq!['\u{2019}', 'r', 'e'];
        let e = seq!['a', 'r', 'e'];
        lemma_ap_single(p, 0);
        lemma_ap_zero(e);
        lemma_suffix_ok(p, e);
    }
    assert(con_ok(spec_table()[9])) by {
        let p = seq!['h', 'e', '\u{2019}', 's'];
        let a = seq!['h', 'e'];
        let b = seq!['i', 's'];
        lemma_ap_single(p, 2);
        lemma_ap_zero(a);
        lemma_ap_zero(b);
        lemma_full_ok(p, a, b);
    }
    assert(con_ok(spec_table()[10])) by {
        let p = seq!['i', 't', '\u{2019}', 's'];
        let a = seq!['i', 't'];
        let b = seq!['i', 's'];
        lemma_ap_single(p, 2);
        lemma_ap_zero(a);
        lemma_ap_zero(b);
        lemma_full_ok(p, a, b);
    }
    assert(con_ok(spec_table()[11])) by {
        let p = seq!['s', 'h', 'e', '\u{2019}', 's'];
        let a = seq!['s', 'h', 'e'];
        let b = seq!['i', 's'];
        lemma_ap_single(p, 3);
        lemma_ap_zero(a);
        lemma_ap_zero(b);
        lemma_full_ok(p, a, b);
    }
    assert(con_ok(spec_table()[12])) by {
        let p = seq!['t', 'h', 'a', 't', '\u{2019}', 's'];
        let a = seq!['t', 'h', 'a', 't'];
        let b = seq!['i', 's'];
        lemma_ap_single(p, 4);
        lemma_ap_zero(a);
        lemma_ap_zero(b);
        lemma_full_ok(p, a, b);
    }
    assert(con_ok(spec_table()[13])) by {
        let p = seq!['t', 'h', 'e', 'r', 'e', '\u{2019}', 's'];
        let a = seq!['t', 'h', 'e', 'r', 'e'];
        let b = seq!['i', 's'];
        lemma_ap_single(p, 5);
        lemma_ap_zero(a);
        lemma_ap_zero(b);
        lemma_full_ok(p, a, b);
    }
    assert(con_ok(spec_table()[14])) by {
        let p = seq!['w', 'h', 'a', 't', '\u{2019}', 's'];
        let a = seq!['w', 'h', 'a', 't'];
        let b = seq!['i', 's'];
        lemma_ap_single(p, 4);
        lemma_ap_zero(a);
        lemma_ap_zero(b);
        lemma_full_ok(p, a, b);
    }
    assert(con_ok(spec_table()[15])) by {
        let p = seq!['w', 'h', 'o', '\u{2019}', 's'];
        let a = seq!['w', 'h', 'o'];
        let b = seq!['i', 's'];
        lemma_ap_single(p, 3);
        lemma_ap_zero(a);
        lemma_ap_zero(b);
        lemma_full_ok(p, a, b);
    }
    assert(con_ok(spec_table()[16])) by {
        let p = seq!['\u{2019}', 't', 'i', 's'];
        let a = seq!['i', 't'];
        let b = seq!['i', 's'];
        lemma_ap_single(p, 0);
        lemma_ap_zero(a);
        lemma_ap_zero(b);
        lemma_full_ok(p, a, b);
    }
    assert(con_ok(spec_table()[17])) by {
        let p = seq!['\u{2019}', 't', 'w', 'a', 's'];
        let a = seq!['i', 't'];
        let b = seq!['w', 'a', 's'];
        lemma_ap_single(p, 0);
        lemma_ap_zero(a);
        lemma_ap_zero(b);
        lemma_full_ok(p, a, b);
    }
    assert(con_ok(spec_table()[18])) by {
        let p = seq!['\u{2019}', 't', 'w', 'i', 'l', 'l'];
        let a = seq!['i', 't'];
        let b = seq!['w', 'i', 'l', 'l'];
        lemma_ap_single(p, 0);
        lemma_ap_zero(a);
        lemma_ap_zero(b);
        lemma_full_ok(p, a, b);
    }
    assert(con_ok(spec_table()[19])) by {
        let p = seq!['m', '\u{2019}', 'd', 'e', 'a', 'r'];
        let a = seq!['m', 'y'];
        let b = seq!['d', 'e', 'a', 'r'];
        lemma_ap_single(p, 1);
        lemma_ap_zero(a);
        lemma_ap_zero(b);
        lemma_full_ok(p, a, b);
    }
    assert(con_ok(spec_table()[20])) by {
        let p = seq!['m', '\u{2019}', 'l', 'a', 'd', 'y'];
        let a = seq!['m', 'y'];
        let b = seq!['l', 'a', 'd', 'y'];
        lemma_ap_single(p, 1);
        lemma_ap_zero(a);
        lemma_ap_zero(b);
        lemma_full_ok(p, a, b);
    }
    assert(con_ok(spec_table()[21])) by {
        let p = seq!['m', '\u{2019}', 'l', 'o', 'r', 'd'];
        let a = seq!['m', 'y'];
        let b = seq!['l', 'o', 'r', 'd'];
        lemma_ap_single(p, 1);
        lemma_ap_zero(a);
        lemma_ap_zero(b);
        lemma_full_ok(p, a, b);
    }
    assert(con_ok(spec_table()[22])) by {
        let p = seq!['\u{2019}', 'd'];
        let e = seq!['w', 'o', 'u', 'l', 'd'];
        lemma_ap_single(p, 0);
        lemma_ap_zero(e);
        lemma_suffix_ok(p, e);
    }
    assert(con_ok(spec_table()[23])) by {
        let p = seq!['\u{2019}', 's'];
        let e = Seq::<char>::empty();
        lemma_ap_single(p, 0);
        lemma_ap_zero(e);
        lemma_suffix_ok(p, e);
    }
    assert(con_ok(spec_table()[24])) by {
        let p = seq!['n', '\u{2019}'];
        let e = seq!['n', 'g'];
        lemma_ap_single(p, 1);
        lemma_ap_zero(e);
        lemma_suffix_repl_ok(p, e);
    }
    assert(con_ok(spec_table()[25])) by {
        let p = seq!['\u{2019}'];
        let e = Seq::<char>::empty();
        lemma_ap_single(p, 0);
        lemma_ap_zero(e);
        lemma_suffix_ok(p, e);
    }
    assert(con_ok(spec_table()[26])) by {
        let p = seq!['\u{2019}'];
        let e = seq!['\u{2019}'];
        lemma_ap_single(p, 0);
        lemma_prefix_ok(p, e);
    }
    assert forall|i: int| 0 <= i < spec_table().len() implies con_ok(
        #[trigger] spec_table()[i],
    ) by {
        assert(spec_table().len() == 27);
    }
}

/// Whatever entry of a table of shrinking entries matches, the outputs
/// shrink the measure.
proof fn lemma_match_in_decreases(tbl: Seq<ConView>, w: Seq<char>)
    requires
        forall|i: int| 0 <= i < tbl.len() ==> con_ok(#[trigger] tbl[i]),
        spec_match_in(tbl, w) is Some,
    ensures
        sum_m(spec_match_in(tbl, w)->Some_0) < m_word(w),
    decreases tbl.len(),
{
    if spec_expand(tbl[0], w) is Some {
        assert(con_ok(tbl[0]));
    } else {
        let rest = tbl.drop_first();
        assert forall|i: int| 0 <= i < rest.len() implies con_ok(#[trigger] rest[i]) by {
            assert(rest[i] == tbl[i + 1]);
        }
        lemma_match_in_decreases(rest, w);
    }
}

/// The table's expansion of a word shrinks the measure.
proof fn lemma_match_table_decreases(w: Seq<char>)
    requires
        spec_match_table(w) is Some,
    ensures
        sum_m(spec_match_table(w)->Some_0) < m_word(w),
{
    lemma_table_ok();
    lemma_match_in_decreases(spec_table(), w);
}

/// The words the work stack expands to: the top word is popped and
/// emitted when no table entry matches it, else replaced by the first
/// matching entry's outputs; the emitted words, in emission order.
pub open spec fn spec_split_rec(stack: Seq<Seq<char>>, acc: Seq<Seq<char>>) -> Seq<Seq<char>>
    decreases sum_m(stack),
    via spec_split_rec_decreases
{
    if stack.len() == 0 {
        acc
    } else {
        let w = stack.last();
        match spec_match_table(w) {
            None => spec_split_rec(stack.drop_last(), acc.push(w)),
            Some(ps) => spec_split_rec(stack.drop_last() + ps, acc),
        }
    }
}

#[via_fn]
proof fn spec_split_rec_decreases(stack: Seq<Seq<char>>, acc: Seq<Seq<char>>) {
    if stack.len() > 0 {
        let w = stack.last();
        lemma_m_bound(w);
        match spec_match_table(w) {
            None => {},
            Some(ps) => {
                lemma_match_table_decreases(w);
                lemma_sum_m_concat(stack.drop_last(), ps);
            },
        }
    }
}

/// The contraction tokens of a word: the words its work stack expands
/// to, in emission order.
pub open spec fn spec_split(w: Seq<char>) -> Seq<Seq<char>> {
    spec_split_rec(seq![w], Seq::empty())
}

/// Split a word given as characters into its contraction tokens.
///
/// Every returned token is unmatched by the table; a word the table
/// does not match comes back alone; a word whose single expansion step
/// yields only unmatched tokens comes back as exactly those tokens, in
/// text order.
pub(crate) fn split_chars(word: &Vec<char>) -> (r: Vec<Vec<char>>)
    ensures
        seq_views(r@) == spec_split(word@),
        forall|i: int|
            0 <= i < r@.len() ==> spec_match_table(#[trigger] seq_views(r@)[i]) is None,
        spec_match_table(word@) is None ==> seq_views(r@) == seq![word@],
        ({
            let ps = spec_match_table(word@);
            let p = ps->Some_0;
            ps is Some && p.len() == 2 && spec_match_table(p[0]) is None && spec_match_table(
                p[1],
            ) is None ==> seq_views(r@) == seq![p[1], p[0]]
        }),
        ({
            let ps = spec_match_table(word@);
            let p = ps->Some_0;
            ps is Some && p.len() == 1 && spec_match_table(p[0]) is None ==> seq_views(r@)
                == seq![p[0]]
        }),
{
    let mut words: Vec<Vec<char>> = Vec::new();
    words.push(copy_chars(word));
    let mut ex: Vec<Vec<char>> = Vec::new();
    proof {
        assert(seq_views(words@) =~= seq![word@]);
        assert(seq_views(ex@) =~= Seq::<Seq<char>>::empty());
    }
    while words.len() > 0
        invariant
            spec_split_rec(seq_views(words@), seq_views(ex@)) == spec_split(word@),
            forall|i: int|
                0 <= i < ex@.len() ==> spec_match_table(#[trigger] seq_views(ex@)[i]) is None,
            spec_match_table(word@) is None ==> (seq_views(words@) == seq![word@] && ex@.len()
                == 0) || (words@.len() == 0 && seq_views(ex@) == seq![word@]),
            ({
                let ps = spec_match_table(word@);
                let p = ps->Some_0;
                ps is Some && p.len() == 2 && spec_match_table(p[0]) is None && spec_match_table(
                    p[1],
                ) is None ==> (seq_views(words@) == seq![word@] && ex@.len() == 0) || (seq_views(
                    words@,
                ) == seq![p[0], p[1]] && ex@.len() == 0) || (seq_views(words@) == seq![p[0]]
                    && seq_views(ex@) == seq![p[1]]) || (words@.len() == 0 && seq_views(ex@)
                    == seq![p[1], p[0]])
            }),
            ({
                let ps = spec_match_table(word@);
                let p = ps->Some_0;
                ps is Some && p.len() == 1 && spec_match_table(p[0]) is None ==> (seq_views(
                    words@,
                ) == seq![word@] && ex@.len() == 0) || (seq_views(words@) == seq![p[0]] && ex@.len()
                    == 0) || (words@.len() == 0 && seq_views(ex@) == seq![p[0]])
            }),
        decreases sum_m(seq_views(words@)),
    {
        let ghost start_views = seq_views(words@);
        let w = match words.pop() {
            Some(w) => w,
            None => vstd::pervasive::unreached(),
        };
        let ghost ps_opt = spec_match_table(word@);
        let ghost p = ps_opt->Some_0;
        proof {
            if start_views == seq![word@] {
                assert(start_views.drop_last() =~= Seq::<Seq<char>>::empty());
            }
            if ps_opt is Some && p.len() == 2 {
                if start_views == seq![p[0], p[1]] {
                    assert(start_views.drop_last() =~= seq![p[0]]);
                }
                if start_views == seq![p[0]] {
                    assert(start_views.drop_last() =~= Seq::<Seq<char>>::empty());
                }
            }
            if ps_opt is Some && p.len() == 1 {
                if start_views == seq![p[0]] {
                    assert(start_views.drop_last() =~= Seq::<Seq<char>>::empty());
                }
            }
        }
        let ghost popped = seq_views(words@);
        proof {
            assert(start_views.drop_last() =~= popped);
            assert(start_views.last() == w@);
            assert(sum_m(start_views) == sum_m(popped) + m_word(w@));
            lemma_m_bound(w@);
        }
        let matched = split_contraction(&mut words, &w);
        if matched {
            proof {
                assert(start_views.len() > 0 && start_views.last() == w@);
                assert(spec_split_rec(seq_views(words@), seq_views(ex@)) == spec_split_rec(
                    start_views,
                    seq_views(ex@),
                ));
                lemma_match_table_decreases(w@);
                lemma_sum_m_concat(popped, spec_match_table(w@)->Some_0);
                if popped.len() == 0 {
                    assert(popped + spec_match_table(w@)->Some_0 =~= spec_match_table(
                        w@,
                    )->Some_0);
                }
                if ps_opt is Some && p.len() == 2 && w@ == word@ && popped.len() == 0 {
                    assert(seq![p[0], p[1]][0] == p[0]);
                }
            }
        } else {
            proof {
                assert(seq_views(ex@.push(w)) =~= seq_views(ex@).push(w@));
                assert(start_views.len() > 0 && start_views.last() == w@);
                assert(spec_split_rec(popped, seq_views(ex@).push(w@)) == spec_split_rec(
                    start_views,
                    seq_views(ex@),
                ));
            }
            ex.push(w);
        }
    }
    proof {
        assert(seq_views(ex@).len() == ex@.len());
        assert(seq_views(words@).len() == words@.len());
        assert(seq![word@].len() == 1);
        assert(spec_split_rec(seq_views(words@), seq_views(ex@)) == seq_views(ex@));
    }
    ex
}

/// Split contractions: expand a word against the table until no token
/// matches, and return the tokens in text order.
pub fn split(word: &str) -> (r: Vec<String>)
    ensures
        str_views(r@) == spec_split(word@),
        forall|i: int|
            0 <= i < r@.len() ==> spec_match_table(#[trigger] str_views(r@)[i]) is None,
        spec_match_table(word@) is None ==> str_views(r@) == seq![word@],
        ({
            let ps = spec_match_table(word@);
            let p = ps->Some_0;
            ps is Some && p.len() == 2 && spec_match_table(p[0]) is None && spec_match_table(
                p[1],
            ) is None ==> str_views(r@) == seq![p[1], p[0]]
        }),
        ({
            let ps = spec_match_table(word@);
            let p = ps->Some_0;
            ps is Some && p.len() == 1 && spec_match_table(p[0]) is None ==> str_views(r@)
                == seq![p[0]]
        }),
{
    let w = crate::unicode::str_chars(word);
    let parts = split_chars(&w);
    let r = to_strings(&parts);
    proof {
        assert(str_views(r@) == seq_views(parts@));
        assert(str_views(r@).len() == r@.len());
        assert(seq_views(parts@).len() == parts@.len());
    }
    r
}

} // verus!
