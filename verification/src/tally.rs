//! Word tally: a case-folded frequency table with compound and
//! contraction post-passes and dictionary reclassification.

use vstd::prelude::*;
use vstd::multiset::Multiset;
use vstd::utf8::valid_utf8;
use crate::chunk::{chunk_step, flush_text};
use crate::contractions::{split_chars, spec_match_table};
use crate::kind::Kind;
use crate::lex::{fold_chars, spec_fold, Lexicon};
use crate::parse::{push_chunk, spec_word_kind, word_kind_chars, Chunk};
use crate::unicode::{char_is_uppercase, chars_str, str_chars, upper_char};
use crate::utf8::{CharSplitter, InvalidUtf8};
use crate::word::{chars_lt, lemma_chars_lt_trans, lemma_chars_lt_trichotomy, spec_chars_lt, str_views};

verus! {

/// Word tally entry.
#[derive(Clone, Debug)]
pub struct WordEntry {
    /// Seen count.
    seen: u64,
    /// Word (the surface variant with the fewest uppercase characters).
    word: String,
    /// Kind grouping.
    kind: Kind,
}

/// The mathematical content of a tally entry.
#[verifier::ext_equal]
pub struct WordEntryView {
    /// Seen count.
    pub seen: u64,
    /// Word.
    pub word: Seq<char>,
    /// Kind grouping.
    pub kind: Kind,
}

impl View for WordEntry {
    type V = WordEntryView;

    closed spec fn view(&self) -> WordEntryView {
        WordEntryView { seen: self.seen, word: self.word@, kind: self.kind }
    }
}

impl WordEntry {
    /// Get seen count.
    pub fn seen(&self) -> (r: u64)
        ensures
            r == self@.seen,
    {
        self.seen
    }

    /// Get word.
    pub fn word(&self) -> (r: &str)
        ensures
            r@ == self@.word,
    {
        self.word.as_str()
    }

    /// Get kind grouping.
    pub fn kind(&self) -> (r: Kind)
        ensures
            r == self@.kind,
    {
        self.kind
    }
}

/// The number of uppercase characters in a word.
pub open spec fn spec_upper_count(s: Seq<char>) -> nat
    decreases s.len(),
{
    if s.len() == 0 {
        0
    } else {
        spec_upper_count(s.drop_last()) + (if upper_char(s.last()) {
            1nat
        } else {
            0nat
        })
    }
}

/// Count the number of uppercase characters in a word.
pub(crate) fn count_uppercase(w: &Vec<char>) -> (r: usize)
    ensures
        r as nat == spec_upper_count(w@),
{
    let mut r: usize = 0;
    let mut i: usize = 0;
    while i < w.len()
        invariant
            i <= w@.len(),
            r as nat == spec_upper_count(w@.take(i as int)),
            r <= i,
        decreases w@.len() - i,
    {
        proof {
            assert(w@.take(i + 1 as int).drop_last() =~= w@.take(i as int));
            assert(w@.take(i + 1 as int).last() == w@[i as int]);
        }
        if char_is_uppercase(w[i]) {
            r = r + 1;
        }
        i = i + 1;
    }
    proof {
        assert(w@.take(w@.len() as int) =~= w@);
    }
    r
}

/// A sum of counts, saturating at the largest count.
pub open spec fn spec_sat_add(a: u64, b: u64) -> u64 {
    if a + b > u64::MAX {
        u64::MAX
    } else {
        (a + b) as u64
    }
}

/// Add two counts, saturating at the largest count.
fn sat_add(a: u64, b: u64) -> (r: u64)
    ensures
        r == spec_sat_add(a, b),
{
    if a <= u64::MAX - b {
        a + b
    } else {
        u64::MAX
    }
}

/// The first position of a key, if present.
pub open spec fn spec_key_index(keys: Seq<Seq<char>>, k: Seq<char>) -> Option<int>
    decreases keys.len(),
{
    if keys.len() == 0 {
        None
    } else if keys[0] == k {
        Some(0)
    } else {
        match spec_key_index(keys.skip(1), k) {
            Some(j) => Some(j + 1),
            None => None,
        }
    }
}

/// A found key stands at its position.
proof fn lemma_key_index_exact(keys: Seq<Seq<char>>, k: Seq<char>, i: int)
    requires
        0 <= i < keys.len(),
        keys[i] == k,
        forall|j: int| 0 <= j < i ==> keys[j] != k,
    ensures
        spec_key_index(keys, k) == Some(i),
    decreases keys.len(),
{
    if i > 0 {
        let t = keys.skip(1);
        assert(t[i - 1] == keys[i]);
        assert forall|j: int| 0 <= j < i - 1 implies t[j] != k by {
            assert(t[j] == keys[j + 1]);
        }
        lemma_key_index_exact(t, k, i - 1);
    }
}

/// A key that stands nowhere is not found.
proof fn lemma_key_index_none(keys: Seq<Seq<char>>, k: Seq<char>)
    requires
        forall|j: int| 0 <= j < keys.len() ==> keys[j] != k,
    ensures
        spec_key_index(keys, k) is None,
    decreases keys.len(),
{
    if keys.len() > 0 {
        let t = keys.skip(1);
        assert forall|j: int| 0 <= j < t.len() implies t[j] != k by {
            assert(t[j] == keys[j + 1]);
        }
        lemma_key_index_none(t, k);
    }
}

/// A found key's position is in range and holds the key.
proof fn lemma_key_index_at(keys: Seq<Seq<char>>, k: Seq<char>)
    requires
        spec_key_index(keys, k) is Some,
    ensures
        0 <= spec_key_index(keys, k)->Some_0 < keys.len(),
        keys[spec_key_index(keys, k)->Some_0] == k,
    decreases keys.len(),
{
    if keys.len() > 0 && keys[0] != k {
        lemma_key_index_at(keys.skip(1), k);
        assert(keys.skip(1)[spec_key_index(keys.skip(1), k)->Some_0] == k);
    }
}

/// Word tally list.
#[derive(Clone)]
pub struct WordTally {
    /// The case-folded key of each entry.
    keys: Vec<String>,
    /// The entries, in parallel with the keys.
    entries: Vec<WordEntry>,
}

impl WordTally {
    /// The case-folded keys, in insertion order.
    pub closed spec fn key_views(self) -> Seq<Seq<char>> {
        str_views(self.keys@)
    }

    /// The entries, in insertion order.
    pub closed spec fn entry_views(self) -> Seq<WordEntryView> {
        self.entries@.map_values(|e: WordEntry| e@)
    }

    /// The tally is well formed: keys and entries run in parallel, the
    /// keys are distinct, and each entry's key is the folded image of
    /// its stored word.
    pub open spec fn wf(self) -> bool {
        &&& self.key_views().len() == self.entry_views().len()
        &&& forall|i: int, j: int|
            0 <= i < j < self.key_views().len() ==> #[trigger] self.key_views()[i]
                != #[trigger] self.key_views()[j]
        &&& forall|i: int|
            0 <= i < self.key_views().len() ==> spec_fold(
                (#[trigger] self.entry_views()[i]).word,
            ) == self.key_views()[i]
        &&& forall|i: int|
            0 <= i < self.entry_views().len() ==> (#[trigger] self.entry_views()[i]).seen >= 1
    }

    /// Create a new word tally.
    pub fn new() -> (r: WordTally)
        ensures
            r.wf(),
            r.key_views() == Seq::<Seq<char>>::empty(),
            r.entry_views() == Seq::<WordEntryView>::empty(),
    {
        let r = WordTally { keys: Vec::new(), entries: Vec::new() };
        proof {
            assert(r.key_views() =~= Seq::<Seq<char>>::empty());
            assert(r.entry_views() =~= Seq::<WordEntryView>::empty());
        }
        r
    }

    /// Get the number of words.
    pub fn len(&self) -> (r: usize)
        ensures
            r == self.entry_views().len(),
    {
        self.entries.len()
    }

    /// Check if word tally is empty.
    pub fn is_empty(&self) -> (r: bool)
        ensures
            r == (self.entry_views().len() == 0),
    {
        self.entries.len() == 0
    }

    /// Tally a word `n` times: a new word is inserted with count `n`;
    /// a known key adds `n` to its count, and the stored surface and
    /// kind switch to the new ones when the new surface has strictly
    /// fewer uppercase characters.
    pub(crate) fn tally_word_n(&mut self, word: Vec<char>, kind: Kind, n: u64)
        requires
            old(self).wf(),
            n >= 1,
        ensures
            final(self).wf(),
            tally_shape(
                old(self).key_views(),
                old(self).entry_views(),
                final(self).key_views(),
                final(self).entry_views(),
                word@,
                kind,
                n,
            ),
            ({
                let k = spec_fold(word@);
                match spec_key_index(old(self).key_views(), k) {
                    None => {
                        &&& final(self).key_views() == old(self).key_views().push(k)
                        &&& final(self).entry_views() == old(self).entry_views().push(
                            WordEntryView { seen: n, word: word@, kind },
                        )
                    },
                    Some(j) => {
                        &&& final(self).key_views() == old(self).key_views()
                        &&& final(self).entry_views() == old(self).entry_views().update(
                            j,
                            (if spec_upper_count(word@) < spec_upper_count(
                                old(self).entry_views()[j].word,
                            ) {
                                WordEntryView {
                                    seen: spec_sat_add(old(self).entry_views()[j].seen, n),
                                    word: word@,
                                    kind,
                                }
                            } else {
                                WordEntryView {
                                    seen: spec_sat_add(old(self).entry_views()[j].seen, n),
                                    word: old(self).entry_views()[j].word,
                                    kind: old(self).entry_views()[j].kind,
                                }
                            }),
                        )
                    },
                }
            }),
    {
        let key = fold_chars(&word);
        let ks = chars_str(&key);
        let mut i: usize = 0;
        proof {
            assert(self.key_views().len() == self.keys@.len());
            assert(self.entry_views().len() == self.entries@.len());
        }
        while i < self.keys.len()
            invariant
                i <= self.keys@.len(),
                self == old(self),
                old(self).wf(),
                self.entries@.len() == self.keys@.len(),
                ks@ == spec_fold(word@),
                forall|j: int| 0 <= j < i ==> self.key_views()[j] != ks@,
            decreases self.keys@.len() - i,
        {
            proof {
                assert(self.key_views()[i as int] == self.keys@[i as int]@);
            }
            if self.keys[i].eq(&ks) {
                proof {
                    lemma_key_index_exact(self.key_views(), ks@, i as int);
                }
                let old_upper = {
                    let wc = str_chars(self.entries[i].word.as_str());
                    count_uppercase(&wc)
                };
                let new_upper = count_uppercase(&word);
                let seen = sat_add(self.entries[i].seen, n);
                let e = if new_upper < old_upper {
                    WordEntry { seen, word: chars_str(&word), kind }
                } else {
                    WordEntry {
                        seen,
                        word: {
                            let wc = str_chars(self.entries[i].word.as_str());
                            chars_str(&wc)
                        },
                        kind: self.entries[i].kind,
                    }
                };
                let ghost oldviews = self.entry_views();
                proof {
                    assert(self.key_views()[i as int] == ks@);
                    assert(spec_fold(oldviews[i as int].word) == self.key_views()[i as int]);
                    assert(spec_fold(e@.word) == self.key_views()[i as int]);
                }
                self.entries.set(i, e);
                proof {
                    assert(self.entry_views() =~~= oldviews.update(i as int, e@));
                    assert(self.key_views() =~= old(self).key_views());
                    assert forall|p: int|
                        0 <= p < self.key_views().len() implies spec_fold(
                        (#[trigger] self.entry_views()[p]).word,
                    ) == self.key_views()[p] by {
                        if p != i {
                            assert(self.entry_views()[p] == old(self).entry_views()[p]);
                        }
                    }
                }
                return ;
            }
            i = i + 1;
        }
        proof {
            lemma_key_index_none(self.key_views(), ks@);
        }
        let e = WordEntry { seen: n, word: chars_str(&word), kind };
        let ghost oldkeys = self.key_views();
        let ghost oldentries = self.entry_views();
        self.keys.push(ks);
        self.entries.push(e);
        proof {
            assert(self.key_views() =~= oldkeys.push(spec_fold(word@)));
            assert(self.entry_views() =~~= oldentries.push(
                WordEntryView { seen: n, word: word@, kind },
            ));
            assert forall|p: int|
                0 <= p < self.key_views().len() implies spec_fold(
                (#[trigger] self.entry_views()[p]).word,
            ) == self.key_views()[p] by {
                if p < oldkeys.len() {
                    assert(self.entry_views()[p] == old(self).entry_views()[p]);
                }
            }
        }
    }

    /// Tally a word once, given as characters.
    pub(crate) fn tally_chars(&mut self, word: Vec<char>, kind: Kind)
        requires
            old(self).wf(),
        ensures
            final(self).wf(),
            tally_shape(
                old(self).key_views(),
                old(self).entry_views(),
                final(self).key_views(),
                final(self).entry_views(),
                word@,
                kind,
                1,
            ),
    {
        self.tally_word_n(word, kind, 1);
    }

    /// Tally a word once: a new word is inserted with count one; a
    /// known key is counted once more, and the stored surface and kind
    /// switch to the new ones when the new surface has strictly fewer
    /// uppercase characters.
    pub fn tally_word(&mut self, word: &str, kind: Kind)
        requires
            old(self).wf(),
        ensures
            final(self).wf(),
            ({
                let k = spec_fold(word@);
                match spec_key_index(old(self).key_views(), k) {
                    None => {
                        &&& final(self).key_views() == old(self).key_views().push(k)
                        &&& final(self).entry_views() == old(self).entry_views().push(
                            WordEntryView { seen: 1, word: word@, kind },
                        )
                    },
                    Some(j) => {
                        &&& final(self).key_views() == old(self).key_views()
                        &&& final(self).entry_views() == old(self).entry_views().update(
                            j,
                            (if spec_upper_count(word@) < spec_upper_count(
                                old(self).entry_views()[j].word,
                            ) {
                                WordEntryView {
                                    seen: spec_sat_add(old(self).entry_views()[j].seen, 1),
                                    word: word@,
                                    kind,
                                }
                            } else {
                                WordEntryView {
                                    seen: spec_sat_add(old(self).entry_views()[j].seen, 1),
                                    word: old(self).entry_views()[j].word,
                                    kind: old(self).entry_views()[j].kind,
                                }
                            }),
                        )
                    },
                }
            }),
    {
        let w = str_chars(word);
        self.tally_word_n(w, kind, 1);
    }

    /// Tally the words of freshly produced chunks.
    fn absorb(&mut self, lex: &Lexicon, out: &Vec<(Chunk, String)>)
        requires
            old(self).wf(),
        ensures
            final(self).wf(),
            final(self).key_views() == spec_tally_toks(
                old(self).key_views(),
                old(self).entry_views(),
                crate::parse::spec_tokens_of_chunks(*lex, crate::chunk::chunk_views(out@)),
            ).0,
            final(self).entry_views() == spec_tally_toks(
                old(self).key_views(),
                old(self).entry_views(),
                crate::parse::spec_tokens_of_chunks(*lex, crate::chunk::chunk_views(out@)),
            ).1,
    {
        let ghost cviews = crate::chunk::chunk_views(out@);
        let mut triples: Vec<(Chunk, String, Kind)> = Vec::new();
        let mut i: usize = 0;
        proof {
            assert(crate::parse::spec_tokens_of_chunks(*lex, cviews.take(0)) =~= Seq::<
                (Chunk, Seq<char>, Kind),
            >::empty());
            assert(crate::parse::triple_views(triples@) =~= Seq::<
                (Chunk, Seq<char>, Kind),
            >::empty());
        }
        while i < out.len()
            invariant
                i <= out@.len(),
                cviews == crate::chunk::chunk_views(out@),
                crate::parse::triple_views(triples@) == crate::parse::spec_tokens_of_chunks(
                    *lex,
                    cviews.take(i as int),
                ),
            decreases out@.len() - i,
        {
            let kind = out[i].0;
            let txt = {
                let t = str_chars(out[i].1.as_str());
                chars_str(&t)
            };
            proof {
                assert(cviews[i as int] == (out@[i as int].0, out@[i as int].1@));
                assert(txt@ == cviews[i as int].1);
                assert(cviews.take(i + 1 as int).drop_last() =~= cviews.take(i as int));
                assert(cviews.take(i + 1 as int).last() == cviews[i as int]);
            }
            push_chunk(lex, &mut triples, kind, txt);
            proof {
                assert(crate::parse::triple_views(triples@)
                    =~~= crate::parse::spec_tokens_of_chunks(*lex, cviews.take(i + 1 as int)));
            }
            i = i + 1;
        }
        proof {
            assert(cviews.take(cviews.len() as int) =~= cviews);
        }
        let ghost tv = crate::parse::triple_views(triples@);
        let mut j: usize = 0;
        proof {
            assert(tv.take(0) =~= Seq::<(Chunk, Seq<char>, Kind)>::empty());
        }
        while j < triples.len()
            invariant
                j <= triples@.len(),
                tv == crate::parse::triple_views(triples@),
                self.wf(),
                self.key_views() == spec_tally_toks(
                    old(self).key_views(),
                    old(self).entry_views(),
                    tv.take(j as int),
                ).0,
                self.entry_views() == spec_tally_toks(
                    old(self).key_views(),
                    old(self).entry_views(),
                    tv.take(j as int),
                ).1,
            decreases triples@.len() - j,
        {
            proof {
                assert(tv[j as int] == (triples@[j as int].0, triples@[j as int].1@, triples@[
                    j as int
                ].2));
                assert(tv.take(j + 1 as int).drop_last() =~= tv.take(j as int));
                assert(tv.take(j + 1 as int).last() == tv[j as int]);
            }
            let is_boundary = match triples[j].0 {
                Chunk::Boundary => true,
                _ => false,
            };
            if !is_boundary {
                let ghost k0 = self.key_views();
                let ghost e0 = self.entry_views();
                let w = str_chars(triples[j].1.as_str());
                self.tally_chars(w, triples[j].2);
                proof {
                    lemma_shape_is_step(
                        k0,
                        e0,
                        self.key_views(),
                        self.entry_views(),
                        w@,
                        triples@[j as int].2,
                        1,
                    );
                }
            }
            j = j + 1;
        }
        proof {
            assert(tv.take(tv.len() as int) =~= tv);
        }
    }

    /// Parse text from a byte stream, tallying every non-boundary
    /// token in stream order.  Fails exactly on ill-formed UTF-8; the
    /// words tallied up to the failure remain in the tally.
    pub fn parse_text(&mut self, lex: &Lexicon, bytes: &[u8]) -> (r: Result<(), InvalidUtf8>)
        requires
            old(self).wf(),
        ensures
            final(self).wf(),
            r is Ok <==> valid_utf8(bytes@),
            r is Ok ==> final(self).key_views() == spec_tally_toks(
                old(self).key_views(),
                old(self).entry_views(),
                crate::parse::spec_tokens_of_chunks(
                    *lex,
                    crate::chunk::spec_chunks(vstd::utf8::decode_utf8(bytes@)),
                ),
            ).0,
            r is Ok ==> final(self).entry_views() == spec_tally_toks(
                old(self).key_views(),
                old(self).entry_views(),
                crate::parse::spec_tokens_of_chunks(
                    *lex,
                    crate::chunk::spec_chunks(vstd::utf8::decode_utf8(bytes@)),
                ),
            ).1,
    {
        let mut splitter = CharSplitter::new(bytes);
        let mut text: Vec<char> = Vec::new();
        let ghost mut chunks_done: Seq<(Chunk, Seq<char>)> = Seq::empty();
        proof {
            if valid_utf8(bytes@) {
                assert(chunks_done + crate::chunk::spec_chunks_from(
                    text@,
                    vstd::utf8::decode_utf8(bytes@),
                ) =~= crate::chunk::spec_chunks(vstd::utf8::decode_utf8(bytes@)));
            }
            assert(crate::parse::spec_tokens_of_chunks(*lex, chunks_done) =~= Seq::<
                (Chunk, Seq<char>, Kind),
            >::empty());
        }
        loop
            invariant_except_break
                splitter.wf(),
                splitter.input() == bytes@,
                valid_utf8(bytes@) <==> valid_utf8(splitter.remaining()),
                self.wf(),
                valid_utf8(bytes@) ==> crate::chunk::spec_chunks(vstd::utf8::decode_utf8(bytes@))
                    == chunks_done + crate::chunk::spec_chunks_from(
                    text@,
                    vstd::utf8::decode_utf8(splitter.remaining()),
                ),
                self.key_views() == spec_tally_toks(
                    old(self).key_views(),
                    old(self).entry_views(),
                    crate::parse::spec_tokens_of_chunks(*lex, chunks_done),
                ).0,
                self.entry_views() == spec_tally_toks(
                    old(self).key_views(),
                    old(self).entry_views(),
                    crate::parse::spec_tokens_of_chunks(*lex, chunks_done),
                ).1,
            ensures
                self.wf(),
                valid_utf8(bytes@),
                self.key_views() == spec_tally_toks(
                    old(self).key_views(),
                    old(self).entry_views(),
                    crate::parse::spec_tokens_of_chunks(
                        *lex,
                        crate::chunk::spec_chunks(vstd::utf8::decode_utf8(bytes@)),
                    ),
                ).0,
                self.entry_views() == spec_tally_toks(
                    old(self).key_views(),
                    old(self).entry_views(),
                    crate::parse::spec_tokens_of_chunks(
                        *lex,
                        crate::chunk::spec_chunks(vstd::utf8::decode_utf8(bytes@)),
                    ),
                ).1,
            decreases splitter.remaining().len(),
        {
            let ghost rem = splitter.remaining();
            match splitter.next_char() {
                None => {
                    proof {
                        assert(valid_utf8(splitter.remaining()));
                        assert(vstd::utf8::decode_utf8(splitter.remaining()) =~= Seq::<
                            char,
                        >::empty());
                    }
                    let mut out: Vec<(Chunk, String)> = Vec::new();
                    let ghost t0 = text@;
                    flush_text(&mut text, &mut out);
                    proof {
                        assert(crate::chunk::chunk_views(out@) =~= crate::chunk::spec_chunks_from(
                            t0,
                            Seq::<char>::empty(),
                        ));
                    }
                    self.absorb(lex, &out);
                    proof {
                        crate::parse::lemma_tokens_of_chunks_concat(
                            *lex,
                            chunks_done,
                            crate::chunk::chunk_views(out@),
                        );
                        lemma_tally_toks_concat(
                            old(self).key_views(),
                            old(self).entry_views(),
                            crate::parse::spec_tokens_of_chunks(*lex, chunks_done),
                            crate::parse::spec_tokens_of_chunks(
                                *lex,
                                crate::chunk::chunk_views(out@),
                            ),
                        );
                        chunks_done = chunks_done + crate::chunk::chunk_views(out@);
                        assert(chunks_done =~= crate::chunk::spec_chunks(
                            vstd::utf8::decode_utf8(bytes@),
                        ));
                    }
                    break ;
                },
                Some(Err(e)) => {
                    proof {
                        assert(!valid_utf8(rem));
                    }
                    return Err(e);
                },
                Some(Ok(c)) => {
                    proof {
                        vstd::utf8::char_is_scalar(c);
                        vstd::utf8::char_u32_cast(c, vstd::utf8::decode_first_scalar(rem));
                        if valid_utf8(rem) {
                            assert(vstd::utf8::decode_utf8(rem) == seq![c]
                                + vstd::utf8::decode_utf8(splitter.remaining()));
                            assert(vstd::utf8::decode_utf8(rem)[0] == c);
                            assert(vstd::utf8::decode_utf8(rem).skip(1)
                                =~= vstd::utf8::decode_utf8(splitter.remaining()));
                        }
                    }
                    let mut out: Vec<(Chunk, String)> = Vec::new();
                    let ghost t0 = text@;
                    chunk_step(&mut text, &mut out, c);
                    proof {
                        assert(crate::chunk::chunk_views(out@) =~= crate::chunk::spec_step(
                            t0,
                            c,
                        ).0);
                    }
                    self.absorb(lex, &out);
                    proof {
                        crate::parse::lemma_tokens_of_chunks_concat(
                            *lex,
                            chunks_done,
                            crate::chunk::chunk_views(out@),
                        );
                        lemma_tally_toks_concat(
                            old(self).key_views(),
                            old(self).entry_views(),
                            crate::parse::spec_tokens_of_chunks(*lex, chunks_done),
                            crate::parse::spec_tokens_of_chunks(
                                *lex,
                                crate::chunk::chunk_views(out@),
                            ),
                        );
                        chunks_done = chunks_done + crate::chunk::chunk_views(out@);
                        if valid_utf8(bytes@) {
                            assert(crate::chunk::spec_chunks(vstd::utf8::decode_utf8(bytes@))
                                =~= chunks_done + crate::chunk::spec_chunks_from(
                                text@,
                                vstd::utf8::decode_utf8(splitter.remaining()),
                            ));
                        }
                    }
                },
            }
        }
        Ok(())
    }
}

/// The number of entries of a given kind.
pub open spec fn spec_count_kind(s: Seq<WordEntryView>, k: Kind) -> nat
    decreases s.len(),
{
    if s.len() == 0 {
        0
    } else {
        spec_count_kind(s.drop_last(), k) + (if s.last().kind == k {
            1nat
        } else {
            0nat
        })
    }
}

impl WordTally {
    /// Count the words of a given kind.
    pub fn count_kind(&self, kind: Kind) -> (r: usize)
        ensures
            r as nat == spec_count_kind(self.entry_views(), kind),
    {
        let mut r: usize = 0;
        let mut i: usize = 0;
        proof {
            assert(self.entry_views().len() == self.entries@.len());
        }
        while i < self.entries.len()
            invariant
                i <= self.entries@.len(),
                r as nat == spec_count_kind(self.entry_views().take(i as int), kind),
                r <= i,
                self.entry_views().len() == self.entries@.len(),
            decreases self.entries@.len() - i,
        {
            proof {
                assert(self.entry_views().take(i + 1 as int).drop_last()
                    =~= self.entry_views().take(i as int));
                assert(self.entry_views().take(i + 1 as int).last() == self.entry_views()[
                    i as int
                ]);
            }
            let same = match (self.entries[i].kind, kind) {
                (Kind::Lexicon, Kind::Lexicon) => true,
                (Kind::Foreign, Kind::Foreign) => true,
                (Kind::Ordinal, Kind::Ordinal) => true,
                (Kind::Roman, Kind::Roman) => true,
                (Kind::Number, Kind::Number) => true,
                (Kind::Acronym, Kind::Acronym) => true,
                (Kind::Proper, Kind::Proper) => true,
                (Kind::Symbol, Kind::Symbol) => true,
                (Kind::Unknown, Kind::Unknown) => true,
                _ => false,
            };
            if same {
                r = r + 1;
            }
            i = i + 1;
        }
        proof {
            assert(self.entry_views().take(self.entry_views().len() as int)
                =~= self.entry_views());
        }
        r
    }

    /// Reclassify in place: every entry whose surface is in the
    /// dictionary becomes `Kind::Lexicon`; nothing else changes.
    pub fn check_dict(&mut self, lex: &Lexicon)
        requires
            old(self).wf(),
        ensures
            final(self).wf(),
            final(self).key_views() == old(self).key_views(),
            final(self).entry_views().len() == old(self).entry_views().len(),
            forall|i: int|
                0 <= i < old(self).entry_views().len() ==> #[trigger] final(self).entry_views()[i]
                    == (WordEntryView {
                    seen: old(self).entry_views()[i].seen,
                    word: old(self).entry_views()[i].word,
                    kind: if lex.spec_contains_key(
                        spec_fold(old(self).entry_views()[i].word),
                    ) {
                        Kind::Lexicon
                    } else {
                        old(self).entry_views()[i].kind
                    },
                }),
    {
        let n = self.entries.len();
        let mut i: usize = 0;
        proof {
            assert(self.entry_views().len() == self.entries@.len());
        }
        while i < n
            invariant
                i <= n,
                n == self.entries@.len(),
                old(self).wf(),
                self.keys@ == old(self).keys@,
                self.entry_views().len() == old(self).entry_views().len(),
                self.entries@.len() == n,
                forall|j: int|
                    i <= j < n ==> #[trigger] self.entry_views()[j] == old(self).entry_views()[j],
                forall|j: int|
                    0 <= j < i ==> #[trigger] self.entry_views()[j] == (WordEntryView {
                        seen: old(self).entry_views()[j].seen,
                        word: old(self).entry_views()[j].word,
                        kind: if lex.spec_contains_key(
                            spec_fold(old(self).entry_views()[j].word),
                        ) {
                            Kind::Lexicon
                        } else {
                            old(self).entry_views()[j].kind
                        },
                    }),
            decreases n - i,
        {
            let w = str_chars(self.entries[i].word.as_str());
            if lex.contains_chars(&w) {
                let e = WordEntry {
                    seen: self.entries[i].seen,
                    word: chars_str(&w),
                    kind: Kind::Lexicon,
                };
                let ghost oldviews = self.entry_views();
                proof {
                    assert(oldviews[i as int] == self.entries@[i as int]@);
                    assert(oldviews[i as int] == old(self).entry_views()[i as int]);
                    assert(e@.seen == oldviews[i as int].seen);
                    assert(e@.word == oldviews[i as int].word);
                }
                self.entries.set(i, e);
                proof {
                    assert(self.entry_views() =~~= oldviews.update(i as int, e@));
                    assert(self.entry_views()[i as int] =~~= (WordEntryView {
                        seen: old(self).entry_views()[i as int].seen,
                        word: old(self).entry_views()[i as int].word,
                        kind: Kind::Lexicon,
                    }));
                }
            } else {
                proof {
                    assert(self.entry_views()[i as int] =~~= (WordEntryView {
                        seen: old(self).entry_views()[i as int].seen,
                        word: old(self).entry_views()[i as int].word,
                        kind: old(self).entry_views()[i as int].kind,
                    }));
                }
            }
            i = i + 1;
        }
        proof {
            assert(self.key_views() =~= old(self).key_views());
            assert forall|p: int|
                0 <= p < self.key_views().len() implies spec_fold(
                (#[trigger] self.entry_views()[p]).word,
            ) == self.key_views()[p] by {
                assert(old(self).key_views()[p] == self.key_views()[p]);
            }
        }
    }
}

/// Kind disjointness: after `check_dict`, every entry whose surface is
/// in the dictionary carries `Kind::Lexicon`.
pub proof fn lemma_check_dict_lexicon(
    lex: Lexicon,
    before: Seq<WordEntryView>,
    after: Seq<WordEntryView>,
)
    requires
        after.len() == before.len(),
        forall|i: int|
            0 <= i < before.len() ==> #[trigger] after[i] == (WordEntryView {
                seen: before[i].seen,
                word: before[i].word,
                kind: if lex.spec_contains_key(spec_fold(before[i].word)) {
                    Kind::Lexicon
                } else {
                    before[i].kind
                },
            }),
    ensures
        forall|i: int|
            0 <= i < after.len() && lex.spec_contains_key(
                spec_fold((#[trigger] after[i]).word),
            ) ==> after[i].kind == Kind::Lexicon,
{
    assert forall|i: int|
        0 <= i < after.len() && lex.spec_contains_key(
            spec_fold((#[trigger] after[i]).word),
        ) implies after[i].kind == Kind::Lexicon by {
        assert(after[i].word == before[i].word);
    }
}

/// The kind count of a sequence of entries is the size of the kind's
/// part of its multiset.
proof fn lemma_count_kind_filter(s: Seq<WordEntryView>, k: Kind)
    ensures
        spec_count_kind(s, k) == s.to_multiset().filter(
            |e: WordEntryView| e.kind == k,
        ).len(),
    decreases s.len(),
{
    broadcast use vstd::seq_lib::group_to_multiset_ensures;
    broadcast use vstd::multiset::group_multiset_axioms;
    broadcast use vstd::multiset::group_multiset_properties;

    let f = |e: WordEntryView| e.kind == k;
    if s.len() == 0 {
        assert(s.to_multiset() =~= Multiset::<WordEntryView>::empty());
        assert(s.to_multiset().filter(f) =~= Multiset::<WordEntryView>::empty());
    } else {
        let d = s.drop_last();
        let x = s.last();
        lemma_count_kind_filter(d, k);
        assert(d.push(x) =~= s);
        assert(s.to_multiset() == d.to_multiset().insert(x));
        if f(x) {
            assert(s.to_multiset().filter(f) =~= d.to_multiset().filter(f).insert(x));
        } else {
            assert(s.to_multiset().filter(f) =~= d.to_multiset().filter(f));
        }
    }
}

/// Counting a kind does not depend on the order of the entries: two
/// tallies of the same entries count every kind alike.  In particular,
/// `count_kind` counts exactly the entries of that kind among the
/// sorted entries that `into_entries` returns.
pub proof fn lemma_count_kind_permuted(a: Seq<WordEntryView>, b: Seq<WordEntryView>, k: Kind)
    requires
        a.to_multiset() == b.to_multiset(),
    ensures
        spec_count_kind(a, k) == spec_count_kind(b, k),
{
    lemma_count_kind_filter(a, k);
    lemma_count_kind_filter(b, k);
}

/// How one tally step relates the maps before and after it.
pub open spec fn tally_shape(
    keys0: Seq<Seq<char>>,
    entries0: Seq<WordEntryView>,
    keys1: Seq<Seq<char>>,
    entries1: Seq<WordEntryView>,
    word: Seq<char>,
    kind: Kind,
    n: u64,
) -> bool {
    match spec_key_index(keys0, spec_fold(word)) {
        None => {
            &&& keys1 == keys0.push(spec_fold(word))
            &&& entries1 == entries0.push(WordEntryView { seen: n, word, kind })
        },
        Some(j) => {
            &&& keys1 == keys0
            &&& 0 <= j < entries0.len()
            &&& entries1 == entries0.update(
                j,
                (if spec_upper_count(word) < spec_upper_count(entries0[j].word) {
                    WordEntryView { seen: spec_sat_add(entries0[j].seen, n), word, kind }
                } else {
                    WordEntryView {
                        seen: spec_sat_add(entries0[j].seen, n),
                        word: entries0[j].word,
                        kind: entries0[j].kind,
                    }
                }),
            )
        },
    }
}

/// One tally update, as a function from the map to the map.
pub open spec fn spec_tally_step(
    keys: Seq<Seq<char>>,
    entries: Seq<WordEntryView>,
    word: Seq<char>,
    kind: Kind,
    n: u64,
) -> (Seq<Seq<char>>, Seq<WordEntryView>) {
    match spec_key_index(keys, spec_fold(word)) {
        None => (
            keys.push(spec_fold(word)),
            entries.push(WordEntryView { seen: n, word, kind }),
        ),
        Some(j) => (
            keys,
            entries.update(
                j,
                (if spec_upper_count(word) < spec_upper_count(entries[j].word) {
                    WordEntryView { seen: spec_sat_add(entries[j].seen, n), word, kind }
                } else {
                    WordEntryView {
                        seen: spec_sat_add(entries[j].seen, n),
                        word: entries[j].word,
                        kind: entries[j].kind,
                    }
                }),
            ),
        ),
    }
}

/// A tally step's shape determines the map it yields.
proof fn lemma_shape_is_step(
    keys0: Seq<Seq<char>>,
    entries0: Seq<WordEntryView>,
    keys1: Seq<Seq<char>>,
    entries1: Seq<WordEntryView>,
    word: Seq<char>,
    kind: Kind,
    n: u64,
)
    requires
        tally_shape(keys0, entries0, keys1, entries1, word, kind, n),
    ensures
        keys1 == spec_tally_step(keys0, entries0, word, kind, n).0,
        entries1 == spec_tally_step(keys0, entries0, word, kind, n).1,
{
}

/// The tally after absorbing a token stream: each non-boundary token
/// tallied once, in order.
pub open spec fn spec_tally_toks(
    keys: Seq<Seq<char>>,
    entries: Seq<WordEntryView>,
    toks: Seq<(Chunk, Seq<char>, Kind)>,
) -> (Seq<Seq<char>>, Seq<WordEntryView>)
    decreases toks.len(),
{
    if toks.len() == 0 {
        (keys, entries)
    } else {
        let prev = spec_tally_toks(keys, entries, toks.drop_last());
        let t = toks.last();
        if t.0 == Chunk::Boundary {
            prev
        } else {
            spec_tally_step(prev.0, prev.1, t.1, t.2, 1)
        }
    }
}

/// Absorbing a concatenation is absorbing in sequence.
proof fn lemma_tally_toks_concat(
    keys: Seq<Seq<char>>,
    entries: Seq<WordEntryView>,
    a: Seq<(Chunk, Seq<char>, Kind)>,
    b: Seq<(Chunk, Seq<char>, Kind)>,
)
    ensures
        spec_tally_toks(keys, entries, a + b) == spec_tally_toks(
            spec_tally_toks(keys, entries, a).0,
            spec_tally_toks(keys, entries, a).1,
            b,
        ),
    decreases b.len(),
{
    if b.len() == 0 {
        assert(a + b =~= a);
    } else {
        assert((a + b).drop_last() =~= a + b.drop_last());
        assert((a + b).last() == b.last());
        lemma_tally_toks_concat(keys, entries, a, b.drop_last());
    }
}

/// A key is present with at least the given count.
pub open spec fn key_present_ge(
    keys: Seq<Seq<char>>,
    entries: Seq<WordEntryView>,
    k: Seq<char>,
    n: u64,
) -> bool {
    exists|j: int| 0 <= j < keys.len() && keys[j] == k && #[trigger] entries[j].seen >= n
}

/// A present key survives a tally step, its count intact.
proof fn lemma_present_after_tally(
    keys0: Seq<Seq<char>>,
    entries0: Seq<WordEntryView>,
    keys1: Seq<Seq<char>>,
    entries1: Seq<WordEntryView>,
    word: Seq<char>,
    kind: Kind,
    n: u64,
    k0: Seq<char>,
    n0: u64,
)
    requires
        keys0.len() == entries0.len(),
        key_present_ge(keys0, entries0, k0, n0),
        tally_shape(keys0, entries0, keys1, entries1, word, kind, n),
    ensures
        key_present_ge(keys1, entries1, k0, n0),
{
    let j = choose|j: int| 0 <= j < keys0.len() && keys0[j] == k0 && #[trigger] entries0[j].seen
        >= n0;
    match spec_key_index(keys0, spec_fold(word)) {
        None => {
            assert(keys1[j] == k0 && entries1[j].seen >= n0);
        },
        Some(u) => {
            if u == j {
                assert(entries1[j].seen == spec_sat_add(entries0[j].seen, n));
                assert(entries1[j].seen >= n0);
            } else {
                assert(keys1[j] == k0 && entries1[j].seen >= n0);
            }
        },
    }
}

/// A tally step leaves its own word's key present with its count.
proof fn lemma_present_established(
    keys0: Seq<Seq<char>>,
    entries0: Seq<WordEntryView>,
    keys1: Seq<Seq<char>>,
    entries1: Seq<WordEntryView>,
    word: Seq<char>,
    kind: Kind,
    n: u64,
)
    requires
        keys0.len() == entries0.len(),
        tally_shape(keys0, entries0, keys1, entries1, word, kind, n),
    ensures
        key_present_ge(keys1, entries1, spec_fold(word), n),
{
    match spec_key_index(keys0, spec_fold(word)) {
        None => {
            let j = keys0.len() as int;
            assert(keys1[j] == spec_fold(word) && entries1[j].seen >= n);
        },
        Some(j) => {
            lemma_key_index_at(keys0, spec_fold(word));
            assert(keys1[j] == spec_fold(word));
            assert(entries1[j].seen == spec_sat_add(entries0[j].seen, n));
            assert(entries1[j].seen >= n);
        },
    }
}

/// A word without apostrophes.
pub open spec fn spec_no_apostrophe(w: Seq<char>) -> bool {
    forall|i: int| 0 <= i < w.len() ==> !crate::unicode::spec_is_apostrophe(#[trigger] w[i])
}

/// An entry whose key the contraction pass must keep: its surface is
/// in the dictionary, holds no apostrophe, or is unmatched by the
/// table (and so re-tallied whole).
pub open spec fn con_kept_entry(lex: Lexicon, e: WordEntryView) -> bool {
    ||| lex.spec_contains_key(spec_fold(e.word))
    ||| spec_no_apostrophe(e.word)
    ||| spec_match_table(e.word) is None
}

/// An entry the contraction pass leaves alone once and for all: its
/// surface is in the dictionary, or holds no apostrophe, or is a word
/// the contraction table does not match, already carrying its word
/// kind.
pub open spec fn con_stable_entry(lex: Lexicon, e: WordEntryView) -> bool {
    ||| lex.spec_contains_key(spec_fold(e.word))
    ||| spec_no_apostrophe(e.word)
    ||| (spec_match_table(e.word) is None && e.kind == spec_word_kind(lex, e.word))
}

/// Every entry is stable under the contraction pass.
pub open spec fn con_stable(lex: Lexicon, s: Seq<WordEntryView>) -> bool {
    forall|i: int| 0 <= i < s.len() ==> con_stable_entry(lex, #[trigger] s[i])
}

/// A pure compound: the word holds a hyphen and every hyphen-separated
/// piece is a nonempty word.
pub open spec fn spec_pure_compound(w: Seq<char>) -> bool {
    w.contains('-') && (forall|p: int|
        0 <= p < crate::word::spec_split_char(w, '-').len() ==> (
        #[trigger] crate::word::spec_split_char(w, '-')[p]).len() > 0)
}

/// An entry the compound pass leaves alone: its surface is in the
/// dictionary or is not a pure compound.
pub open spec fn comp_stable_entry(lex: Lexicon, e: WordEntryView) -> bool {
    ||| lex.spec_contains_key(spec_fold(e.word))
    ||| !spec_pure_compound(e.word)
}

/// Every entry is stable under the compound pass.
pub open spec fn comp_stable(lex: Lexicon, s: Seq<WordEntryView>) -> bool {
    forall|i: int| 0 <= i < s.len() ==> comp_stable_entry(lex, #[trigger] s[i])
}

/// A word in which the separator is not found holds it nowhere.
proof fn lemma_find_none_no_occurrence(s: Seq<char>, c: char, q: int)
    requires
        crate::word::spec_find_char(s, c) is None,
        0 <= q < s.len(),
    ensures
        s[q] != c,
    decreases s.len(),
{
    if q > 0 {
        lemma_find_none_no_occurrence(s.skip(1), c, q - 1);
        assert(s.skip(1)[q - 1] == s[q]);
    }
}

/// The first occurrence of a character is the first.
proof fn lemma_find_char_is_first(s: Seq<char>, c: char)
    requires
        crate::word::spec_find_char(s, c) is Some,
    ensures
        ({
            let j = crate::word::spec_find_char(s, c)->Some_0;
            &&& 0 <= j < s.len()
            &&& s[j] == c
            &&& forall|m: int| 0 <= m < j ==> s[m] != c
        }),
    decreases s.len(),
{
    if s.len() > 0 && s[0] != c {
        lemma_find_char_is_first(s.skip(1), c);
        let j = crate::word::spec_find_char(s, c)->Some_0;
        assert(s.skip(1)[j - 1] == s[j]);
        assert forall|m: int| 0 <= m < j implies s[m] != c by {
            if m > 0 {
                assert(s.skip(1)[m - 1] == s[m]);
            }
        }
    }
}

/// The pieces of a split word never hold the separator.
proof fn lemma_split_char_no_sep(s: Seq<char>, sep: char)
    ensures
        forall|p: int, q: int|
            0 <= p < crate::word::spec_split_char(s, sep).len() && 0 <= q
                < crate::word::spec_split_char(s, sep)[p].len() ==> #[trigger] crate::word::spec_split_char(
                s,
                sep,
            )[p][q] != sep,
    decreases s.len(),
{
    let pieces = crate::word::spec_split_char(s, sep);
    match crate::word::spec_find_char(s, sep) {
        None => {
            assert forall|p: int, q: int|
                0 <= p < pieces.len() && 0 <= q < pieces[p].len() implies #[trigger] pieces[p][q]
                != sep by {
                lemma_find_none_no_occurrence(s, sep, q);
            }
        },
        Some(j) => {
            lemma_find_char_is_first(s, sep);
            lemma_split_char_no_sep(s.skip(j + 1), sep);
            let rest = crate::word::spec_split_char(s.skip(j + 1), sep);
            assert forall|p: int, q: int|
                0 <= p < pieces.len() && 0 <= q < pieces[p].len() implies #[trigger] pieces[p][q]
                != sep by {
                if p == 0 {
                    assert(pieces[0] == s.take(j));
                    assert(s.take(j)[q] == s[q]);
                } else {
                    assert(pieces[p] == rest[p - 1]);
                }
            }
        },
    }
}

impl WordTally {
    /// Split unknown contractions: every entry whose surface is not in
    /// the dictionary and holds an apostrophe is removed, and each
    /// token of its contraction split re-tallied with the original
    /// count.  The pass is idempotent: on a stable tally it changes
    /// nothing.
    #[verifier::rlimit(50)]
    pub fn split_unknown_contractions(&mut self, lex: &Lexicon)
        requires
            old(self).wf(),
        ensures
            final(self).wf(),
            con_stable(*lex, final(self).entry_views()),
            con_stable(*lex, old(self).entry_views()) ==> final(self).key_views() == old(
                self,
            ).key_views() && final(self).entry_views() == old(self).entry_views(),
            forall|i: int|
                0 <= i < old(self).entry_views().len() && con_kept_entry(
                    *lex,
                    #[trigger] old(self).entry_views()[i],
                ) ==> key_present_ge(
                    final(self).key_views(),
                    final(self).entry_views(),
                    spec_fold(old(self).entry_views()[i].word),
                    old(self).entry_views()[i].seen,
                ),
    {
        let ghost oldkeys = self.key_views();
        let ghost oldviews = self.entry_views();
        let mut nt = WordTally::new();
        let n = self.entries.len();
        let mut i: usize = 0;
        proof {
            assert(oldkeys.take(0) =~= Seq::<Seq<char>>::empty());
            assert(oldviews.take(0) =~= Seq::<WordEntryView>::empty());
        }
        while i < n
            invariant
                i <= n,
                n == self.entries@.len(),
                self == old(self),
                old(self).wf(),
                oldkeys == old(self).key_views(),
                oldviews == old(self).entry_views(),
                nt.wf(),
                con_stable(*lex, nt.entry_views()),
                con_stable(*lex, oldviews) ==> nt.key_views() == oldkeys.take(i as int)
                    && nt.entry_views() == oldviews.take(i as int),
                forall|q: int|
                    0 <= q < i && con_kept_entry(*lex, #[trigger] oldviews[q])
                        ==> key_present_ge(
                        nt.key_views(),
                        nt.entry_views(),
                        spec_fold(oldviews[q].word),
                        oldviews[q].seen,
                    ),
            decreases n - i,
        {
            proof {
                assert(self.entry_views()[i as int] == self.entries@[i as int]@);
                assert(self.key_views()[i as int] == spec_fold(oldviews[i as int].word));
            }
            let wc = str_chars(self.entries[i].word.as_str());
            let seen = self.entries[i].seen;
            let kind = self.entries[i].kind;
            let in_lex = lex.contains_chars(&wc);
            let has_apo = crate::parse::any_apostrophe(&wc);
            let ghost nt0_keys = nt.key_views();
            let ghost nt0_views = nt.entry_views();
            if in_lex || !has_apo {
                proof {
                    if con_stable(*lex, oldviews) {
                        assert forall|j: int| 0 <= j < i implies nt0_keys[j] != spec_fold(
                            wc@,
                        ) by {
                            assert(oldkeys.take(i as int)[j] == oldkeys[j]);
                        }
                        lemma_key_index_none(nt0_keys, spec_fold(wc@));
                    }
                }
                proof {
                    assert(con_stable_entry(
                        *lex,
                        WordEntryView { seen, word: oldviews[i as int].word, kind },
                    ));
                }
                nt.tally_word_n(wc, kind, seen);
                proof {
                    if spec_key_index(nt0_keys, spec_fold(oldviews[i as int].word)) is Some {
                        lemma_key_index_at(nt0_keys, spec_fold(oldviews[i as int].word));
                    }
                    lemma_stable_after_tally(
                        *lex,
                        nt0_views,
                        nt.entry_views(),
                        oldviews[i as int].word,
                        kind,
                        seen,
                        nt0_keys,
                    );
                    assert forall|q: int|
                        0 <= q < i && con_kept_entry(*lex, #[trigger] oldviews[q]) implies
                        key_present_ge(
                        nt.key_views(),
                        nt.entry_views(),
                        spec_fold(oldviews[q].word),
                        oldviews[q].seen,
                    ) by {
                        lemma_present_after_tally(
                            nt0_keys,
                            nt0_views,
                            nt.key_views(),
                            nt.entry_views(),
                            oldviews[i as int].word,
                            kind,
                            seen,
                            spec_fold(oldviews[q].word),
                            oldviews[q].seen,
                        );
                    }
                    lemma_present_established(
                        nt0_keys,
                        nt0_views,
                        nt.key_views(),
                        nt.entry_views(),
                        oldviews[i as int].word,
                        kind,
                        seen,
                    );
                    if con_stable(*lex, oldviews) {
                        assert(nt.key_views() =~= oldkeys.take(i + 1 as int));
                        assert(nt.entry_views() =~~= oldviews.take(i + 1 as int));
                    }
                }
            } else {
                let tokens = split_chars(&wc);
                let mut t: usize = 0;
                proof {
                    if con_stable(*lex, oldviews) {
                        assert(con_stable_entry(*lex, oldviews[i as int]));
                        assert(spec_match_table(wc@) is None);
                        assert(crate::word::seq_views(tokens@) == seq![wc@]);
                    }
                }
                while t < tokens.len()
                    invariant
                        t <= tokens@.len(),
                        self == old(self),
                        old(self).wf(),
                        i < n == self.entries@.len(),
                        oldkeys == old(self).key_views(),
                        oldviews == old(self).entry_views(),
                        wc@ == oldviews[i as int].word,
                        seen == oldviews[i as int].seen,
                        seen >= 1,
                        kind == oldviews[i as int].kind,
                        !lex.spec_contains_key(spec_fold(wc@)),
                        exists|q: int|
                            0 <= q < wc@.len() && crate::unicode::spec_is_apostrophe(
                                #[trigger] wc@[q],
                            ),
                        nt0_keys.len() == nt0_views.len(),
                        nt.wf(),
                        con_stable(*lex, nt.entry_views()),
                        forall|q: int|
                            0 <= q < i && con_kept_entry(*lex, #[trigger] oldviews[q])
                                ==> key_present_ge(
                                nt.key_views(),
                                nt.entry_views(),
                                spec_fold(oldviews[q].word),
                                oldviews[q].seen,
                            ),
                        spec_match_table(wc@) is None ==> crate::word::seq_views(tokens@)
                            == seq![wc@],
                        spec_match_table(wc@) is None && t > 0 ==> key_present_ge(
                            nt.key_views(),
                            nt.entry_views(),
                            spec_fold(wc@),
                            seen,
                        ),
                        forall|q: int|
                            0 <= q < tokens@.len() ==> spec_match_table(
                                #[trigger] crate::word::seq_views(tokens@)[q],
                            ) is None,
                        con_stable(*lex, oldviews) ==> ({
                            &&& crate::word::seq_views(tokens@) == seq![wc@]
                            &&& nt0_keys == oldkeys.take(i as int)
                            &&& nt0_views == oldviews.take(i as int)
                            &&& (t == 0 ==> nt.key_views() == nt0_keys && nt.entry_views()
                                == nt0_views)
                            &&& (t > 0 ==> nt.key_views() == oldkeys.take(i + 1 as int)
                                && nt.entry_views() == oldviews.take(i + 1 as int))
                        }),
                    decreases tokens@.len() - t,
                {
                    let piece = &tokens[t];
                    if piece.len() > 0 {
                        let k = word_kind_chars(lex, piece);
                        let pc = crate::word::copy_chars(piece);
                        let ghost before_views = nt.entry_views();
                        let ghost before_keys = nt.key_views();
                        proof {
                            assert(crate::word::seq_views(tokens@)[t as int] == piece@);
                            if con_stable(*lex, oldviews) {
                                assert(piece@ == wc@);
                                assert(con_stable_entry(*lex, oldviews[i as int]));
                                assert(!spec_no_apostrophe(wc@));
                                assert(oldviews[i as int].kind == spec_word_kind(*lex, wc@));
                                assert(k == kind);
                                assert forall|j: int| 0 <= j < i implies before_keys[j]
                                    != spec_fold(pc@) by {
                                    assert(oldkeys.take(i as int)[j] == oldkeys[j]);
                                }
                                lemma_key_index_none(before_keys, spec_fold(pc@));
                            }
                        }
                        proof {
                            assert(con_stable_entry(
                                *lex,
                                WordEntryView { seen, word: pc@, kind: k },
                            ));
                        }
                        nt.tally_word_n(pc, k, seen);
                        proof {
                            if spec_key_index(before_keys, spec_fold(piece@)) is Some {
                                lemma_key_index_at(before_keys, spec_fold(piece@));
                            }
                            lemma_stable_after_tally(
                                *lex,
                                before_views,
                                nt.entry_views(),
                                piece@,
                                k,
                                seen,
                                before_keys,
                            );
                            assert forall|q: int|
                                0 <= q < i && con_kept_entry(*lex, #[trigger] oldviews[q])
                                    implies key_present_ge(
                                nt.key_views(),
                                nt.entry_views(),
                                spec_fold(oldviews[q].word),
                                oldviews[q].seen,
                            ) by {
                                lemma_present_after_tally(
                                    before_keys,
                                    before_views,
                                    nt.key_views(),
                                    nt.entry_views(),
                                    piece@,
                                    k,
                                    seen,
                                    spec_fold(oldviews[q].word),
                                    oldviews[q].seen,
                                );
                            }
                            if spec_match_table(wc@) is None {
                                assert(crate::word::seq_views(tokens@).len() == tokens@.len());
                                assert(t == 0);
                                assert(piece@ == wc@);
                                lemma_present_established(
                                    before_keys,
                                    before_views,
                                    nt.key_views(),
                                    nt.entry_views(),
                                    piece@,
                                    k,
                                    seen,
                                );
                            } else if t > 0 && key_present_ge(
                                before_keys,
                                before_views,
                                spec_fold(wc@),
                                seen,
                            ) {
                                lemma_present_after_tally(
                                    before_keys,
                                    before_views,
                                    nt.key_views(),
                                    nt.entry_views(),
                                    piece@,
                                    k,
                                    seen,
                                    spec_fold(wc@),
                                    seen,
                                );
                            }
                            if con_stable(*lex, oldviews) {
                                assert(nt.key_views() =~= oldkeys.take(i + 1 as int));
                                assert(nt.entry_views() =~~= oldviews.take(i + 1 as int));
                            }
                        }
                    } else {
                        proof {
                            if spec_match_table(wc@) is None {
                                assert(crate::word::seq_views(tokens@).len() == tokens@.len());
                                assert(t == 0);
                                assert(crate::word::seq_views(tokens@)[t as int] == piece@);
                                assert(piece@ == wc@);
                                assert(wc@.len() == 0);
                                assert(false);
                            }
                            if con_stable(*lex, oldviews) {
                                assert(crate::word::seq_views(tokens@)[t as int] == piece@);
                                assert(piece@ == wc@);
                                assert(wc@.len() == 0);
                                assert(false);
                            }
                        }
                    }
                    t = t + 1;
                }
                proof {
                    if con_stable(*lex, oldviews) {
                        assert(tokens@.len() == 1);
                    }
                }
            }
            i = i + 1;
        }
        proof {
            if con_stable(*lex, oldviews) {
                assert(oldkeys.take(n as int) =~= oldkeys);
                assert(oldviews.take(n as int) =~= oldviews);
            }
        }
        *self = nt;
    }

    /// Split unknown compounds: every entry whose surface is not in the
    /// dictionary and is a pure hyphenated compound is removed, and
    /// each piece re-tallied with the original count.  The pass is
    /// idempotent: on a stable tally it changes nothing.
    pub fn split_unknown_compounds(&mut self, lex: &Lexicon)
        requires
            old(self).wf(),
        ensures
            final(self).wf(),
            comp_stable(*lex, final(self).entry_views()),
            comp_stable(*lex, old(self).entry_views()) ==> final(self).key_views() == old(
                self,
            ).key_views() && final(self).entry_views() == old(self).entry_views(),
            forall|i: int|
                0 <= i < old(self).entry_views().len() && comp_stable_entry(
                    *lex,
                    #[trigger] old(self).entry_views()[i],
                ) ==> key_present_ge(
                    final(self).key_views(),
                    final(self).entry_views(),
                    spec_fold(old(self).entry_views()[i].word),
                    old(self).entry_views()[i].seen,
                ),
    {
        let ghost oldkeys = self.key_views();
        let ghost oldviews = self.entry_views();
        let mut nt = WordTally::new();
        let n = self.entries.len();
        let mut i: usize = 0;
        proof {
            assert(oldkeys.take(0) =~= Seq::<Seq<char>>::empty());
            assert(oldviews.take(0) =~= Seq::<WordEntryView>::empty());
        }
        while i < n
            invariant
                i <= n,
                n == self.entries@.len(),
                self == old(self),
                old(self).wf(),
                oldkeys == old(self).key_views(),
                oldviews == old(self).entry_views(),
                nt.wf(),
                comp_stable(*lex, nt.entry_views()),
                comp_stable(*lex, oldviews) ==> nt.key_views() == oldkeys.take(i as int)
                    && nt.entry_views() == oldviews.take(i as int),
                forall|q: int|
                    0 <= q < i && comp_stable_entry(*lex, #[trigger] oldviews[q])
                        ==> key_present_ge(
                        nt.key_views(),
                        nt.entry_views(),
                        spec_fold(oldviews[q].word),
                        oldviews[q].seen,
                    ),
            decreases n - i,
        {
            proof {
                assert(self.entry_views()[i as int] == self.entries@[i as int]@);
            }
            let wc = str_chars(self.entries[i].word.as_str());
            let seen = self.entries[i].seen;
            let kind = self.entries[i].kind;
            let in_lex = lex.contains_chars(&wc);
            let pieces = crate::word::split_char(&wc, '-');
            let is_compound = crate::word::contains_char(&wc, '-') && {
                let mut all_ok = true;
                let mut p: usize = 0;
                while p < pieces.len()
                    invariant
                        p <= pieces@.len(),
                        crate::word::seq_views(pieces@) == crate::word::spec_split_char(
                            wc@,
                            '-',
                        ),
                        all_ok == (forall|q: int|
                            0 <= q < p ==> (#[trigger] crate::word::seq_views(pieces@)[q]).len()
                                > 0),
                    decreases pieces@.len() - p,
                {
                    proof {
                        assert(crate::word::seq_views(pieces@)[p as int] == pieces@[p as int]@);
                    }
                    if pieces[p].len() == 0 {
                        all_ok = false;
                    }
                    p = p + 1;
                }
                all_ok
            };
            let ghost nt0_keys = nt.key_views();
            let ghost nt0_views = nt.entry_views();
            if in_lex || !is_compound {
                proof {
                    if comp_stable(*lex, oldviews) {
                        assert forall|j: int| 0 <= j < i implies nt0_keys[j] != spec_fold(
                            wc@,
                        ) by {
                            assert(oldkeys.take(i as int)[j] == oldkeys[j]);
                        }
                        lemma_key_index_none(nt0_keys, spec_fold(wc@));
                    }
                    assert(in_lex || !spec_pure_compound(wc@));
                }
                proof {
                    assert(comp_stable_entry(
                        *lex,
                        WordEntryView { seen, word: oldviews[i as int].word, kind },
                    ));
                }
                nt.tally_word_n(wc, kind, seen);
                proof {
                    if spec_key_index(nt0_keys, spec_fold(oldviews[i as int].word)) is Some {
                        lemma_key_index_at(nt0_keys, spec_fold(oldviews[i as int].word));
                    }
                    lemma_comp_stable_after_tally(
                        *lex,
                        nt0_views,
                        nt.entry_views(),
                        oldviews[i as int].word,
                        kind,
                        seen,
                        nt0_keys,
                    );
                    assert forall|q: int|
                        0 <= q < i && comp_stable_entry(*lex, #[trigger] oldviews[q]) implies
                        key_present_ge(
                        nt.key_views(),
                        nt.entry_views(),
                        spec_fold(oldviews[q].word),
                        oldviews[q].seen,
                    ) by {
                        lemma_present_after_tally(
                            nt0_keys,
                            nt0_views,
                            nt.key_views(),
                            nt.entry_views(),
                            oldviews[i as int].word,
                            kind,
                            seen,
                            spec_fold(oldviews[q].word),
                            oldviews[q].seen,
                        );
                    }
                    lemma_present_established(
                        nt0_keys,
                        nt0_views,
                        nt.key_views(),
                        nt.entry_views(),
                        oldviews[i as int].word,
                        kind,
                        seen,
                    );
                    if comp_stable(*lex, oldviews) {
                        assert(nt.key_views() =~= oldkeys.take(i + 1 as int));
                        assert(nt.entry_views() =~~= oldviews.take(i + 1 as int));
                    }
                }
            } else {
                proof {
                    assert(spec_pure_compound(wc@));
                    if comp_stable(*lex, oldviews) {
                        assert(comp_stable_entry(*lex, oldviews[i as int]));
                        assert(false);
                    }
                    lemma_split_char_no_sep(wc@, '-');
                }
                let mut p: usize = 0;
                while p < pieces.len()
                    invariant
                        p <= pieces@.len(),
                        crate::word::seq_views(pieces@) == crate::word::spec_split_char(
                            wc@,
                            '-',
                        ),
                        forall|a: int, b: int|
                            0 <= a < crate::word::seq_views(pieces@).len() && 0 <= b
                                < crate::word::seq_views(pieces@)[a].len()
                                ==> #[trigger] crate::word::seq_views(pieces@)[a][b] != '-',
                        seen >= 1,
                        nt.wf(),
                        comp_stable(*lex, nt.entry_views()),
                        forall|q: int|
                            0 <= q < i && comp_stable_entry(*lex, #[trigger] oldviews[q])
                                ==> key_present_ge(
                                nt.key_views(),
                                nt.entry_views(),
                                spec_fold(oldviews[q].word),
                                oldviews[q].seen,
                            ),
                    decreases pieces@.len() - p,
                {
                    let piece = &pieces[p];
                    if piece.len() > 0 {
                        let k = word_kind_chars(lex, piece);
                        let pc = crate::word::copy_chars(piece);
                        let ghost before_views = nt.entry_views();
                        let ghost before_keys = nt.key_views();
                        proof {
                            assert(crate::word::seq_views(pieces@)[p as int] == piece@);
                            assert(!piece@.contains('-')) by {
                                if piece@.contains('-') {
                                    let b = choose|b: int|
                                        0 <= b < piece@.len() && piece@[b] == '-';
                                    assert(crate::word::seq_views(pieces@)[p as int][b] == '-');
                                }
                            }
                            assert(!spec_pure_compound(pc@));
                        }
                        proof {
                            assert(comp_stable_entry(
                                *lex,
                                WordEntryView { seen, word: pc@, kind: k },
                            ));
                        }
                        nt.tally_word_n(pc, k, seen);
                        proof {
                            if spec_key_index(before_keys, spec_fold(piece@)) is Some {
                                lemma_key_index_at(before_keys, spec_fold(piece@));
                            }
                            lemma_comp_stable_after_tally(
                                *lex,
                                before_views,
                                nt.entry_views(),
                                piece@,
                                k,
                                seen,
                                before_keys,
                            );
                            assert forall|q: int|
                                0 <= q < i && comp_stable_entry(*lex, #[trigger] oldviews[q])
                                    implies key_present_ge(
                                nt.key_views(),
                                nt.entry_views(),
                                spec_fold(oldviews[q].word),
                                oldviews[q].seen,
                            ) by {
                                lemma_present_after_tally(
                                    before_keys,
                                    before_views,
                                    nt.key_views(),
                                    nt.entry_views(),
                                    piece@,
                                    k,
                                    seen,
                                    spec_fold(oldviews[q].word),
                                    oldviews[q].seen,
                                );
                            }
                        }
                    }
                    p = p + 1;
                }
            }
            i = i + 1;
        }
        proof {
            if comp_stable(*lex, oldviews) {
                assert(oldkeys.take(n as int) =~= oldkeys);
                assert(oldviews.take(n as int) =~= oldviews);
            }
        }
        *self = nt;
    }
}

/// After tallying a stable word into a stable tally, every entry is
/// still stable under the contraction pass.
proof fn lemma_stable_after_tally(
    lex: Lexicon,
    before: Seq<WordEntryView>,
    after: Seq<WordEntryView>,
    word: Seq<char>,
    kind: Kind,
    n: u64,
    keys: Seq<Seq<char>>,
)
    requires
        con_stable(lex, before),
        con_stable_entry(lex, WordEntryView { seen: n, word, kind }),
        ({
            match spec_key_index(keys, spec_fold(word)) {
                None => after == before.push(WordEntryView { seen: n, word, kind }),
                Some(j) => 0 <= j < before.len() && after == before.update(
                    j,
                    (if spec_upper_count(word) < spec_upper_count(before[j].word) {
                        WordEntryView {
                            seen: spec_sat_add(before[j].seen, n),
                            word,
                            kind,
                        }
                    } else {
                        WordEntryView {
                            seen: spec_sat_add(before[j].seen, n),
                            word: before[j].word,
                            kind: before[j].kind,
                        }
                    }),
                ),
            }
        }),
    ensures
        con_stable(lex, after),
{
    assert forall|i: int| 0 <= i < after.len() implies con_stable_entry(
        lex,
        #[trigger] after[i],
    ) by {
        match spec_key_index(keys, spec_fold(word)) {
            None => {
                if i < before.len() {
                    assert(after[i] == before[i]);
                }
            },
            Some(j) => {
                if i != j {
                    assert(after[i] == before[i]);
                } else {
                    assert(con_stable_entry(lex, before[j]));
                }
            },
        }
    }
}

/// After tallying a stable word into a stable tally, every entry is
/// still stable under the compound pass.
proof fn lemma_comp_stable_after_tally(
    lex: Lexicon,
    before: Seq<WordEntryView>,
    after: Seq<WordEntryView>,
    word: Seq<char>,
    kind: Kind,
    n: u64,
    keys: Seq<Seq<char>>,
)
    requires
        comp_stable(lex, before),
        comp_stable_entry(lex, WordEntryView { seen: n, word, kind }),
        ({
            match spec_key_index(keys, spec_fold(word)) {
                None => after == before.push(WordEntryView { seen: n, word, kind }),
                Some(j) => 0 <= j < before.len() && after == before.update(
                    j,
                    (if spec_upper_count(word) < spec_upper_count(before[j].word) {
                        WordEntryView {
                            seen: spec_sat_add(before[j].seen, n),
                            word,
                            kind,
                        }
                    } else {
                        WordEntryView {
                            seen: spec_sat_add(before[j].seen, n),
                            word: before[j].word,
                            kind: before[j].kind,
                        }
                    }),
                ),
            }
        }),
    ensures
        comp_stable(lex, after),
{
    assert forall|i: int| 0 <= i < after.len() implies comp_stable_entry(
        lex,
        #[trigger] after[i],
    ) by {
        match spec_key_index(keys, spec_fold(word)) {
            None => {
                if i < before.len() {
                    assert(after[i] == before[i]);
                }
            },
            Some(j) => {
                if i != j {
                    assert(after[i] == before[i]);
                } else {
                    assert(comp_stable_entry(lex, before[j]));
                }
            },
        }
    }
}

/// Entry order: ascending by seen count, then by word, then by kind.
pub open spec fn spec_entry_le(a: WordEntryView, b: WordEntryView) -> bool {
    if a.seen != b.seen {
        a.seen < b.seen
    } else if a.word != b.word {
        spec_chars_lt(a.word, b.word)
    } else {
        a.kind.rank() <= b.kind.rank()
    }
}

/// Entry order is total.
proof fn lemma_entry_le_total(a: WordEntryView, b: WordEntryView)
    ensures
        spec_entry_le(a, b) || spec_entry_le(b, a),
{
    lemma_chars_lt_trichotomy(a.word, b.word);
}

/// Entry order is transitive.
proof fn lemma_entry_le_trans(a: WordEntryView, b: WordEntryView, c: WordEntryView)
    requires
        spec_entry_le(a, b),
        spec_entry_le(b, c),
    ensures
        spec_entry_le(a, c),
{
    lemma_chars_lt_trichotomy(a.word, b.word);
    lemma_chars_lt_trichotomy(b.word, c.word);
    lemma_chars_lt_trichotomy(a.word, c.word);
    if a.seen == b.seen && b.seen == c.seen && a.word != b.word && b.word != c.word && a.word
        != c.word {
        lemma_chars_lt_trans(a.word, b.word, c.word);
    }
}

/// Get the rank of a kind in the fixed order.
fn kind_rank(k: Kind) -> (r: u8)
    ensures
        r as int == k.rank(),
{
    match k {
        Kind::Lexicon => 0,
        Kind::Foreign => 1,
        Kind::Ordinal => 2,
        Kind::Roman => 3,
        Kind::Number => 4,
        Kind::Acronym => 5,
        Kind::Proper => 6,
        Kind::Symbol => 7,
        Kind::Unknown => 8,
    }
}

/// Compare two entries in the `(seen, word, kind)` order.
fn entry_le(a: &WordEntry, b: &WordEntry) -> (r: bool)
    ensures
        r == spec_entry_le(a@, b@),
{
    let sa = a.seen();
    let sb = b.seen();
    if sa != sb {
        return sa < sb;
    }
    let wa = str_chars(a.word());
    let wb = str_chars(b.word());
    if !crate::word::chars_eq(&wa, &wb) {
        return chars_lt(&wa, &wb);
    }
    kind_rank(a.kind()) <= kind_rank(b.kind())
}

impl WordTally {
    /// Get the entries sorted ascending by `(seen, word, kind)`: the
    /// same entries the tally held, in sorted order.
    pub fn into_entries(self) -> (r: Vec<WordEntry>)
        ensures
            r@.map_values(|e: WordEntry| e@).to_multiset() == self.entry_views().to_multiset(),
            forall|i: int, j: int|
                0 <= i < j < r@.len() ==> spec_entry_le(
                    (#[trigger] r@[i])@,
                    (#[trigger] r@[j])@,
                ),
            self.wf() ==> forall|i: int| 0 <= i < r@.len() ==> (#[trigger] r@[i])@.seen >= 1,
    {
        broadcast use vstd::seq_lib::group_to_multiset_ensures;
        broadcast use vstd::multiset::group_multiset_axioms;

        let mut src = self.entries;
        let mut out: Vec<WordEntry> = Vec::new();
        let ghost all = self.entry_views().to_multiset();
        proof {
            assert(src@.map_values(|e: WordEntry| e@) == self.entry_views());
            assert(out@.map_values(|e: WordEntry| e@) =~= Seq::<WordEntryView>::empty());
            assert(out@.map_values(|e: WordEntry| e@).to_multiset().add(
                src@.map_values(|e: WordEntry| e@).to_multiset(),
            ) =~= all);
        }
        while src.len() > 0
            invariant
                out@.map_values(|e: WordEntry| e@).to_multiset().add(
                    src@.map_values(|e: WordEntry| e@).to_multiset(),
                ) == all,
                forall|i: int, j: int|
                    0 <= i < j < out@.len() ==> spec_entry_le(
                        (#[trigger] out@[i])@,
                        (#[trigger] out@[j])@,
                    ),
                forall|i: int, j: int|
                    0 <= i < out@.len() && 0 <= j < src@.len() ==> spec_entry_le(
                        (#[trigger] out@[i])@,
                        (#[trigger] src@[j])@,
                    ),
            decreases src@.len(),
        {
            let mut best: usize = 0;
            let mut j: usize = 1;
            while j < src.len()
                invariant
                    best < j <= src@.len(),
                    forall|q: int|
                        0 <= q < j ==> spec_entry_le(
                            src@[best as int]@,
                            (#[trigger] src@[q])@,
                        ),
                decreases src@.len() - j,
            {
                if !entry_le(&src[best], &src[j]) {
                    proof {
                        lemma_entry_le_total(src@[best as int]@, src@[j as int]@);
                        assert(spec_entry_le(src@[j as int]@, src@[best as int]@));
                        assert forall|q: int| 0 <= q < j + 1 implies spec_entry_le(
                            src@[j as int]@,
                            (#[trigger] src@[q])@,
                        ) by {
                            if q == j {
                                lemma_entry_le_total(src@[j as int]@, src@[j as int]@);
                            } else if q == best {
                            } else {
                                lemma_entry_le_trans(
                                    src@[j as int]@,
                                    src@[best as int]@,
                                    src@[q]@,
                                );
                            }
                        }
                    }
                    best = j;
                }
                j = j + 1;
            }
            let ghost src_views = src@.map_values(|e: WordEntry| e@);
            let ghost out_views = out@.map_values(|e: WordEntry| e@);
            proof {
                assert(forall|q: int|
                    0 <= q < src_views.len() ==> spec_entry_le(
                        src_views[best as int],
                        #[trigger] src_views[q],
                    ));
            }
            let m = src.remove(best);
            proof {
                assert(src@.map_values(|e: WordEntry| e@) =~= src_views.remove(best as int));
                assert(src_views[best as int] == m@);
                vstd::seq_lib::to_multiset_remove::<WordEntryView>(src_views, best as int);
            }
            let ghost out_views2 = out_views.push(m@);
            proof {
                assert(out@.push(m).map_values(|e: WordEntry| e@) =~= out_views2);
                vstd::seq_lib::to_multiset_build::<WordEntryView>(out_views, m@);
                assert(src_views.contains(m@)) by {
                    assert(src_views[best as int] == m@);
                }
                vstd::seq_lib::to_multiset_contains::<WordEntryView>(src_views, m@);
                assert(out_views.to_multiset().insert(m@).add(
                    src_views.to_multiset().remove(m@),
                ) =~= out_views.to_multiset().add(src_views.to_multiset()));
                assert forall|q: int| 0 <= q < src@.len() implies spec_entry_le(
                    m@,
                    (#[trigger] src@[q])@,
                ) by {
                    if q < best {
                        assert(src@[q]@ == src_views[q]);
                    } else {
                        assert(src@[q]@ == src_views[q + 1]);
                    }
                }
            }
            out.push(m);
        }
        proof {
            assert(src@.map_values(|e: WordEntry| e@).to_multiset() =~= Multiset::<
                WordEntryView,
            >::empty());
            assert(out@.map_values(|e: WordEntry| e@).to_multiset().add(
                Multiset::<WordEntryView>::empty(),
            ) =~= out@.map_values(|e: WordEntry| e@).to_multiset());
            if self.wf() {
                assert forall|i: int| 0 <= i < out@.len() implies (#[trigger] out@[i])@.seen
                    >= 1 by {
                    let v = out@.map_values(|e: WordEntry| e@)[i];
                    assert(out@.map_values(|e: WordEntry| e@).contains(v));
                    vstd::seq_lib::to_multiset_contains::<WordEntryView>(
                        out@.map_values(|e: WordEntry| e@),
                        v,
                    );
                    vstd::seq_lib::to_multiset_contains::<WordEntryView>(
                        self.entry_views(),
                        v,
                    );
                    assert(self.entry_views().contains(v));
                    let j = choose|j: int|
                        0 <= j < self.entry_views().len() && self.entry_views()[j] == v;
                    assert(self.entry_views()[j].seen >= 1);
                }
            }
        }
        out
    }
}

} // verus!
