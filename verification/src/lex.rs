//! The lexicon: case-folded lookup keys and the indexed collection of
//! lexemes.

use vstd::prelude::*;
use crate::unicode::{
    char_lowercase, chars_str, is_apostrophe, lower_of, spec_is_apostrophe, str_chars,
};
use crate::word::{spec_parse_line, str_views, Lexeme, LexemeView};

verus! {

/// The case-folded image of one character: any apostrophe becomes the
/// ASCII `'`; any other character maps through the lowercase tables.
pub open spec fn spec_fold_char(c: char) -> Seq<char> {
    if spec_is_apostrophe(c) {
        seq!['\'']
    } else {
        lower_of(c)
    }
}

/// The case-folded key of a word: each character folded in order.
pub open spec fn spec_fold(s: Seq<char>) -> Seq<char>
    decreases s.len(),
{
    if s.len() == 0 {
        Seq::empty()
    } else {
        spec_fold(s.drop_last()) + spec_fold_char(s.last())
    }
}

/// Fold a word given as characters.
pub(crate) fn fold_chars(w: &Vec<char>) -> (r: Vec<char>)
    ensures
        r@ == spec_fold(w@),
{
    let mut r: Vec<char> = Vec::new();
    let mut i: usize = 0;
    proof {
        assert(w@.take(0) =~= Seq::<char>::empty());
    }
    while i < w.len()
        invariant
            i <= w@.len(),
            r@ == spec_fold(w@.take(i as int)),
        decreases w@.len() - i,
    {
        let c = w[i];
        let ghost before = r@;
        proof {
            assert(w@.take(i + 1 as int).drop_last() =~= w@.take(i as int));
            assert(w@.take(i + 1 as int).last() == w@[i as int]);
        }
        if is_apostrophe(c) {
            r.push('\'');
            proof {
                assert(r@ =~= before + spec_fold_char(w@[i as int]));
            }
        } else {
            let ls = char_lowercase(c);
            let mut k: usize = 0;
            while k < ls.len()
                invariant
                    k <= ls@.len(),
                    r@ == before + ls@.take(k as int),
                decreases ls@.len() - k,
            {
                proof {
                    assert((before + ls@.take(k as int)).push(ls@[k as int]) =~= before
                        + ls@.take(k + 1 as int));
                }
                r.push(ls[k]);
                k = k + 1;
            }
            proof {
                assert(before + ls@.take(ls@.len() as int) =~= before + ls@);
                assert(r@ =~= before + spec_fold_char(w@[i as int]));
            }
        }
        i = i + 1;
    }
    proof {
        assert(w@.take(w@.len() as int) =~= w@);
    }
    r
}

/// Make word to check lexicon: the case-folded key.
pub fn make_word(word: &str) -> (r: String)
    ensures
        r@ == spec_fold(word@),
{
    let w = str_chars(word);
    let f = fold_chars(&w);
    chars_str(&f)
}

/// Lexicon of words.
#[derive(Clone)]
pub struct Lexicon {
    /// All lexemes.
    words: Vec<Lexeme>,
    /// The case-folded keys of all inserted forms, in insertion order.
    keys: Vec<String>,
    /// For each key, the index of the lexeme whose form produced it.
    ids: Vec<usize>,
}

impl Lexicon {
    /// The lexemes of the lexicon, in insertion order.
    pub closed spec fn lexemes(self) -> Seq<LexemeView> {
        self.words@.map_values(|w: Lexeme| w@)
    }

    /// The folded key of each inserted form, in insertion order.
    pub closed spec fn key_views(self) -> Seq<Seq<char>> {
        str_views(self.keys@)
    }

    /// The lexeme index each inserted form belongs to.
    pub closed spec fn id_views(self) -> Seq<int> {
        self.ids@.map_values(|i: usize| i as int)
    }

    /// Whether a folded key stands in the index.
    pub open spec fn spec_contains_key(self, k: Seq<char>) -> bool {
        self.key_views().contains(k)
    }

    /// The key at position `p` is the folded image of one of the forms
    /// of the lexeme it points to.
    pub open spec fn key_ok(self, p: int) -> bool {
        &&& self.id_views()[p] < self.lexemes().len()
        &&& exists|f: int|
            0 <= f < self.lexemes()[self.id_views()[p]].forms.len() && spec_fold(
                #[trigger] self.lexemes()[self.id_views()[p]].forms[f],
            ) == self.key_views()[p]
    }

    /// The index is well formed: keys and indices run in parallel, each
    /// index names a lexeme, and each key is the folded image of one of
    /// that lexeme's forms.
    pub closed spec fn wf(self) -> bool {
        &&& self.keys@.len() == self.ids@.len()
        &&& forall|p: int| 0 <= p < self.ids@.len() ==> #[trigger] self.key_ok(p)
    }

    /// Create a new empty lexicon.
    pub fn new() -> (r: Lexicon)
        ensures
            r.wf(),
            r.lexemes() == Seq::<LexemeView>::empty(),
            r.key_views() == Seq::<Seq<char>>::empty(),
    {
        let r = Lexicon { words: Vec::new(), keys: Vec::new(), ids: Vec::new() };
        proof {
            assert(r.lexemes() =~= Seq::<LexemeView>::empty());
            assert(r.key_views() =~= Seq::<Seq<char>>::empty());
        }
        r
    }
}

/// The lexeme indices whose key equals `k`, in insertion order.
pub open spec fn spec_matches(keys: Seq<Seq<char>>, ids: Seq<int>, k: Seq<char>) -> Seq<int>
    decreases keys.len(),
{
    if keys.len() == 0 {
        Seq::empty()
    } else {
        spec_matches(keys.drop_last(), ids.drop_last(), k) + (if keys.last() == k {
            seq![ids.last()]
        } else {
            Seq::empty()
        })
    }
}

impl Lexicon {
    /// Insert a lexeme (word) into the lexicon: each of its forms is
    /// folded and indexed, then the lexeme is appended.
    pub fn insert(&mut self, word: Lexeme)
        requires
            old(self).wf(),
        ensures
            final(self).wf(),
            final(self).lexemes() == old(self).lexemes().push(word@),
            final(self).key_views() == old(self).key_views() + word@.forms.map_values(
                |f: Seq<char>| spec_fold(f),
            ),
    {
        let n = self.words.len();
        let fs = word.forms();
        let nf = fs.len();
        let ghost folded = word@.forms.map_values(|f: Seq<char>| spec_fold(f));
        let mut i: usize = 0;
        proof {
            assert(self.key_views() + folded.take(0) =~= self.key_views());
        }
        while i < nf
            invariant
                i <= nf,
                nf == word@.forms.len(),
                str_views(fs@) == word@.forms,
                folded == word@.forms.map_values(|f: Seq<char>| spec_fold(f)),
                self.words@ == old(self).words@,
                n == self.words@.len(),
                self.keys@.len() == self.ids@.len(),
                self.key_views() == old(self).key_views() + folded.take(i as int),
                self.ids@ == old(self).ids@ + Seq::new(i as nat, |m: int| n as usize),
                old(self).wf(),
            decreases nf - i,
        {
            let fc = str_chars(fs[i].as_str());
            proof {
                assert(str_views(fs@)[i as int] == fs@[i as int]@);
            }
            let key = fold_chars(&fc);
            let ks = chars_str(&key);
            proof {
                assert(str_views(self.keys@.push(ks)) =~= str_views(self.keys@).push(ks@));
                assert(old(self).key_views() + folded.take(i + 1 as int) =~= (old(
                    self,
                ).key_views() + folded.take(i as int)).push(spec_fold(word@.forms[i as int])));
                assert(self.ids@.push(n) =~= old(self).ids@ + Seq::new(
                    (i + 1) as nat,
                    |m: int| n as usize,
                ));
            }
            self.keys.push(ks);
            self.ids.push(n);
            i = i + 1;
        }
        proof {
            assert(folded.take(nf as int) =~= folded);
        }
        let ghost w_view = word@;
        self.words.push(word);
        proof {
            assert(self.lexemes() =~= old(self).lexemes().push(w_view));
            assert forall|p: int| 0 <= p < self.ids@.len() implies #[trigger] self.key_ok(p) by {
                if p < old(self).ids@.len() {
                    assert(old(self).key_ok(p));
                    assert(self.id_views()[p] == old(self).id_views()[p]);
                    assert(self.key_views()[p] == old(self).key_views()[p]);
                    assert(self.lexemes()[old(self).id_views()[p]] == old(self).lexemes()[old(
                        self,
                    ).id_views()[p]]);
                } else {
                    let m = p - old(self).ids@.len();
                    assert(self.id_views()[p] == n as int);
                    assert(self.lexemes()[n as int] == w_view);
                    assert(self.key_views()[p] == spec_fold(w_view.forms[m]));
                }
            }
        }
    }

    /// Check whether a folded key is in the index.
    pub(crate) fn contains_key_str(&self, key: &String) -> (r: bool)
        ensures
            r == self.spec_contains_key(key@),
    {
        let mut i: usize = 0;
        while i < self.keys.len()
            invariant
                i <= self.keys@.len(),
                forall|p: int| 0 <= p < i ==> self.key_views()[p] != key@,
            decreases self.keys@.len() - i,
        {
            if self.keys[i].eq(key) {
                proof {
                    assert(self.key_views()[i as int] == key@);
                }
                return true;
            }
            proof {
                assert(self.key_views()[i as int] == self.keys@[i as int]@);
            }
            i = i + 1;
        }
        false
    }

    /// Check if the lexicon contains a word form.
    pub fn contains(&self, word: &str) -> (r: bool)
        ensures
            r == self.spec_contains_key(spec_fold(word@)),
    {
        let key = make_word(word);
        self.contains_key_str(&key)
    }

    /// Check if the lexicon contains a word form given as characters.
    pub(crate) fn contains_chars(&self, w: &Vec<char>) -> (r: bool)
        ensures
            r == self.spec_contains_key(spec_fold(w@)),
    {
        let f = fold_chars(w);
        let s = chars_str(&f);
        self.contains_key_str(&s)
    }

    /// Get all lexeme entries containing a word form.
    pub fn word_entries(&self, word: &str) -> (r: Vec<&Lexeme>)
        requires
            self.wf(),
        ensures
            ({
                let ms = spec_matches(self.key_views(), self.id_views(), spec_fold(word@));
                &&& r@.len() == ms.len()
                &&& forall|m: int| 0 <= m < ms.len() ==> (#[trigger] r@[m])@ == self.lexemes()[ms[m]]
            }),
    {
        let key = make_word(word);
        let ghost k = spec_fold(word@);
        let mut r: Vec<&Lexeme> = Vec::new();
        let mut i: usize = 0;
        proof {
            assert(self.key_views().take(0) =~= Seq::<Seq<char>>::empty());
            assert(self.id_views().take(0) =~= Seq::<int>::empty());
        }
        while i < self.keys.len()
            invariant
                i <= self.keys@.len(),
                self.wf(),
                k == key@,
                ({
                    let ms = spec_matches(
                        self.key_views().take(i as int),
                        self.id_views().take(i as int),
                        k,
                    );
                    &&& r@.len() == ms.len()
                    &&& forall|m: int|
                        0 <= m < ms.len() ==> (#[trigger] r@[m])@ == self.lexemes()[ms[m]]
                }),
            decreases self.keys@.len() - i,
        {
            let ghost ms = spec_matches(
                self.key_views().take(i as int),
                self.id_views().take(i as int),
                k,
            );
            proof {
                assert(self.key_views().take(i + 1 as int).drop_last() =~= self.key_views().take(
                    i as int,
                ));
                assert(self.id_views().take(i + 1 as int).drop_last() =~= self.id_views().take(
                    i as int,
                ));
                assert(self.key_views().take(i + 1 as int).last() == self.key_views()[i as int]);
                assert(self.id_views().take(i + 1 as int).last() == self.id_views()[i as int]);
                assert(self.key_views()[i as int] == self.keys@[i as int]@);
            }
            if self.keys[i].eq(&key) {
                proof {
                    assert(self.key_ok(i as int));
                }
                let id = self.ids[i];
                r.push(&self.words[id]);
                proof {
                    assert(spec_matches(
                        self.key_views().take(i + 1 as int),
                        self.id_views().take(i + 1 as int),
                        k,
                    ) =~= ms.push(self.id_views()[i as int]));
                }
            } else {
                proof {
                    assert(spec_matches(
                        self.key_views().take(i + 1 as int),
                        self.id_views().take(i + 1 as int),
                        k,
                    ) =~= ms);
                }
            }
            i = i + 1;
        }
        proof {
            assert(self.key_views().take(self.key_views().len() as int) =~= self.key_views());
            assert(self.id_views().take(self.id_views().len() as int) =~= self.id_views());
        }
        r
    }

    /// Get all word forms (folded keys), without duplicates.
    pub fn forms(&self) -> (r: Vec<String>)
        ensures
            forall|a: int, b: int|
                0 <= a < b < r@.len() ==> (#[trigger] r@[a])@ != (#[trigger] r@[b])@,
            forall|k: Seq<char>|
                #[trigger] str_views(r@).contains(k) <==> self.key_views().contains(k),
    {
        let mut r: Vec<String> = Vec::new();
        let mut i: usize = 0;
        while i < self.keys.len()
            invariant
                i <= self.keys@.len(),
                forall|a: int, b: int|
                    0 <= a < b < r@.len() ==> (#[trigger] r@[a])@ != (#[trigger] r@[b])@,
                forall|k: Seq<char>|
                    #[trigger] str_views(r@).contains(k) <==> self.key_views().take(
                        i as int,
                    ).contains(k),
            decreases self.keys@.len() - i,
        {
            let ghost before = r@;
            let mut found = false;
            let mut p: usize = 0;
            while p < r.len()
                invariant
                    p <= r@.len(),
                    i < self.keys@.len(),
                    found ==> str_views(r@).contains(self.keys@[i as int]@),
                    !found ==> forall|q: int| 0 <= q < p ==> (#[trigger] r@[q])@ != self.keys@[
                        i as int
                    ]@,
                decreases r@.len() - p,
            {
                if r[p].eq(&self.keys[i]) {
                    proof {
                        assert(str_views(r@)[p as int] == self.keys@[i as int]@);
                    }
                    found = true;
                }
                proof {
                    assert(str_views(r@)[p as int] == r@[p as int]@);
                }
                p = p + 1;
            }
            proof {
                assert(self.key_views().take(i + 1 as int).drop_last() =~= self.key_views().take(
                    i as int,
                ));
                assert(self.key_views().take(i + 1 as int).last() == self.keys@[i as int]@);
            }
            if !found {
                let kc = str_chars(self.keys[i].as_str());
                let ks = chars_str(&kc);
                proof {
                    assert(ks@ == self.keys@[i as int]@);
                    assert(str_views(r@.push(ks)) =~= str_views(r@).push(ks@));
                }
                r.push(ks);
                proof {
                    assert forall|k: Seq<char>| #[trigger] str_views(r@).contains(k) implies self
                        .key_views().take(i + 1 as int).contains(k) by {
                        let q = choose|q: int|
                            0 <= q < str_views(r@).len() && #[trigger] str_views(r@)[q] == k;
                        if q < before.len() {
                            assert(str_views(before).contains(k));
                            let w = choose|w: int|
                                0 <= w < self.key_views().take(i as int).len()
                                    && #[trigger] self.key_views().take(i as int)[w] == k;
                            assert(self.key_views().take(i + 1 as int)[w] == k);
                        } else {
                            assert(self.key_views().take(i + 1 as int)[i as int] == k);
                        }
                    }
                    assert forall|k: Seq<char>|
                        #[trigger] self.key_views().take(i + 1 as int).contains(k) implies str_views(
                        r@,
                    ).contains(k) by {
                        let w = choose|w: int|
                            0 <= w < self.key_views().take(i + 1 as int).len()
                                && #[trigger] self.key_views().take(i + 1 as int)[w] == k;
                        if w < i {
                            assert(self.key_views().take(i as int).contains(k));
                            assert(str_views(before).contains(k));
                            let q = choose|q: int|
                                0 <= q < str_views(before).len() && #[trigger] str_views(before)[q] == k;
                            assert(str_views(r@)[q] == k);
                        } else {
                            assert(str_views(r@)[str_views(r@).len() - 1] == k);
                        }
                    }
                }
            } else {
                proof {
                    assert forall|k: Seq<char>|
                        #[trigger] self.key_views().take(i + 1 as int).contains(k) implies str_views(
                        r@,
                    ).contains(k) by {
                        let w = choose|w: int|
                            0 <= w < self.key_views().take(i + 1 as int).len()
                                && #[trigger] self.key_views().take(i + 1 as int)[w] == k;
                        if w < i {
                            assert(self.key_views().take(i as int).contains(k));
                        }
                    }
                    assert forall|k: Seq<char>| #[trigger] str_views(r@).contains(k) implies self
                        .key_views().take(i + 1 as int).contains(k) by {
                        assert(self.key_views().take(i as int).contains(k));
                        let w = choose|w: int|
                            0 <= w < self.key_views().take(i as int).len() && #[trigger] self.key_views().take(
                                i as int,
                            )[w] == k;
                        assert(self.key_views().take(i + 1 as int)[w] == k);
                    }
                }
            }
            i = i + 1;
        }
        proof {
            assert(self.key_views().take(self.key_views().len() as int) =~= self.key_views());
        }
        r
    }

    /// Get all lexemes (words), in insertion order.
    pub fn iter(&self) -> (r: &Vec<Lexeme>)
        ensures
            r@.map_values(|w: Lexeme| w@) == self.lexemes(),
    {
        &self.words
    }
}

/// The dictionary lines of a text: split on newlines, without a final
/// empty line, each line without its trailing carriage return.
pub open spec fn spec_csv_lines(text: Seq<char>) -> Seq<Seq<char>> {
    let raw = crate::word::spec_split_char(text, '\n');
    let cut = if raw.len() > 0 && raw.last().len() == 0 {
        raw.drop_last()
    } else {
        raw
    };
    cut.map_values(
        |l: Seq<char>|
            if l.len() > 0 && l.last() == '\r' {
                l.drop_last()
            } else {
                l
            },
    )
}

impl Lexicon {
    /// Build a lexicon from dictionary lines, one lexeme per line.
    /// Fails with the number of the first malformed line.
    pub fn from_lines(text: &str) -> (r: Result<Lexicon, usize>)
        ensures
            ({
                let lines = spec_csv_lines(text@);
                &&& r matches Ok(lex) ==> ({
                    &&& lex.wf()
                    &&& lex.lexemes().len() == lines.len()
                    &&& forall|i: int|
                        0 <= i < lines.len() ==> spec_parse_line(#[trigger] lines[i]) is Some
                            && lex.lexemes()[i] == spec_parse_line(lines[i])->Some_0
                })
                &&& r matches Err(n) ==> ({
                    &&& n < lines.len()
                    &&& spec_parse_line(lines[n as int]) is None
                    &&& forall|i: int|
                        0 <= i < n ==> spec_parse_line(#[trigger] lines[i]) is Some
                })
            }),
    {
        let chars = str_chars(text);
        let raw = crate::word::split_char(&chars, '\n');
        let ghost lines = spec_csv_lines(text@);
        let mut n = raw.len();
        if n > 0 && raw[n - 1].len() == 0 {
            n = n - 1;
        }
        proof {
            assert(lines.len() == n);
        }
        let mut lx = Lexicon::new();
        let mut i: usize = 0;
        while i < n
            invariant
                i <= n,
                n <= raw@.len(),
                lines == spec_csv_lines(text@),
                lines.len() == n,
                forall|q: int|
                    0 <= q < n ==> lines[q] == (if (#[trigger] raw@[q]@).len() > 0
                        && raw@[q]@.last() == '\r' {
                        raw@[q]@.drop_last()
                    } else {
                        raw@[q]@
                    }),
                lx.wf(),
                lx.lexemes().len() == i,
                forall|q: int|
                    0 <= q < i ==> spec_parse_line(#[trigger] lines[q]) is Some
                        && lx.lexemes()[q] == spec_parse_line(lines[q])->Some_0,
            decreases n - i,
        {
            let line = &raw[i];
            let lc = if line.len() > 0 && line[line.len() - 1] == '\r' {
                crate::word::take_prefix(line, line.len() - 1)
            } else {
                crate::word::copy_chars(line)
            };
            proof {
                if line@.len() > 0 && line@.last() == '\r' {
                    assert(line@.take(line@.len() - 1) =~= line@.drop_last());
                }
                assert(lc@ == lines[i as int]);
            }
            let s = chars_str(&lc);
            match Lexeme::try_from_line(s.as_str()) {
                Some(w) => {
                    lx.insert(w);
                },
                None => {
                    return Err(i);
                },
            }
            i = i + 1;
        }
        Ok(lx)
    }
}

/// Lexeme order: by lemma, then word class, then attributes.
pub open spec fn spec_lexeme_le(a: LexemeView, b: LexemeView) -> bool {
    if a.lemma != b.lemma {
        crate::word::spec_chars_lt(a.lemma, b.lemma)
    } else if a.word_class != b.word_class {
        a.word_class.rank() < b.word_class.rank()
    } else if a.attr != b.attr {
        crate::word::spec_chars_lt(a.attr, b.attr)
    } else {
        true
    }
}

/// Lexeme order is total.
proof fn lemma_lexeme_le_total(a: LexemeView, b: LexemeView)
    ensures
        spec_lexeme_le(a, b) || spec_lexeme_le(b, a),
{
    crate::word::lemma_chars_lt_trichotomy(a.lemma, b.lemma);
    crate::word::lemma_chars_lt_trichotomy(a.attr, b.attr);
}

/// Lexeme order is transitive.
proof fn lemma_lexeme_le_trans(a: LexemeView, b: LexemeView, c: LexemeView)
    requires
        spec_lexeme_le(a, b),
        spec_lexeme_le(b, c),
    ensures
        spec_lexeme_le(a, c),
{
    crate::word::lemma_chars_lt_trichotomy(a.lemma, b.lemma);
    crate::word::lemma_chars_lt_trichotomy(b.lemma, c.lemma);
    crate::word::lemma_chars_lt_trichotomy(a.lemma, c.lemma);
    crate::word::lemma_chars_lt_trichotomy(a.attr, b.attr);
    crate::word::lemma_chars_lt_trichotomy(b.attr, c.attr);
    crate::word::lemma_chars_lt_trichotomy(a.attr, c.attr);
    if a.lemma != b.lemma && b.lemma != c.lemma && a.lemma != c.lemma {
        crate::word::lemma_chars_lt_trans(a.lemma, b.lemma, c.lemma);
    }
    if a.lemma == c.lemma && a.word_class == c.word_class && a.attr != b.attr && b.attr != c.attr
        && a.attr != c.attr {
        crate::word::lemma_chars_lt_trans(a.attr, b.attr, c.attr);
    }
}

/// Compare two lexemes in the `(lemma, class, attributes)` order.
fn lexeme_le(a: &Lexeme, b: &Lexeme) -> (r: bool)
    ensures
        r == spec_lexeme_le(a@, b@),
{
    let la = str_chars(a.lemma());
    let lb = str_chars(b.lemma());
    if !crate::word::chars_eq(&la, &lb) {
        return crate::word::chars_lt(&la, &lb);
    }
    let ra = a.word_class().rank_of();
    let rb = b.word_class().rank_of();
    if ra != rb {
        proof {
            assert(a@.word_class != b@.word_class) by {
                if a@.word_class == b@.word_class {
                    assert(a@.word_class.rank() == b@.word_class.rank());
                }
            }
        }
        return ra < rb;
    }
    proof {
        assert(a@.word_class == b@.word_class) by {
            if a@.word_class != b@.word_class {
                assert(ra as int == a@.word_class.rank());
            }
        }
    }
    let aa = str_chars(a.attr_str());
    let ab = str_chars(b.attr_str());
    if !crate::word::chars_eq(&aa, &ab) {
        return crate::word::chars_lt(&aa, &ab);
    }
    true
}

impl Lexicon {
    /// Take the lexemes out, sorted by `(lemma, class, attributes)`.
    pub fn into_sorted(self) -> (r: Vec<Lexeme>)
        ensures
            r@.map_values(|w: Lexeme| w@).to_multiset() == self.lexemes().to_multiset(),
            forall|i: int, j: int|
                0 <= i < j < r@.len() ==> spec_lexeme_le(
                    (#[trigger] r@[i])@,
                    (#[trigger] r@[j])@,
                ),
    {
        broadcast use vstd::seq_lib::group_to_multiset_ensures;
        broadcast use vstd::multiset::group_multiset_axioms;

        let mut src = self.words;
        let mut out: Vec<Lexeme> = Vec::new();
        let ghost all = self.lexemes().to_multiset();
        proof {
            assert(src@.map_values(|w: Lexeme| w@) == self.lexemes());
            assert(out@.map_values(|w: Lexeme| w@) =~= Seq::<LexemeView>::empty());
            assert(out@.map_values(|w: Lexeme| w@).to_multiset().add(
                src@.map_values(|w: Lexeme| w@).to_multiset(),
            ) =~= all);
        }
        while src.len() > 0
            invariant
                out@.map_values(|w: Lexeme| w@).to_multiset().add(
                    src@.map_values(|w: Lexeme| w@).to_multiset(),
                ) == all,
                forall|i: int, j: int|
                    0 <= i < j < out@.len() ==> spec_lexeme_le(
                        (#[trigger] out@[i])@,
                        (#[trigger] out@[j])@,
                    ),
                forall|i: int, j: int|
                    0 <= i < out@.len() && 0 <= j < src@.len() ==> spec_lexeme_le(
                        (#[trigger] out@[i])@,
                        (#[trigger] src@[j])@,
                    ),
            decreases src@.len(),
        {
            let mut best: usize = 0;
            let mut j: usize = 1;
            while j < src.len()
                invariant
                    best < j <= src@.len(),
                    forall|q: int|
                        0 <= q < j ==> spec_lexeme_le(
                            src@[best as int]@,
                            (#[trigger] src@[q])@,
                        ),
                decreases src@.len() - j,
            {
                if !lexeme_le(&src[best], &src[j]) {
                    proof {
                        lemma_lexeme_le_total(src@[best as int]@, src@[j as int]@);
                        assert(spec_lexeme_le(src@[j as int]@, src@[best as int]@));
                        assert forall|q: int| 0 <= q < j + 1 implies spec_lexeme_le(
                            src@[j as int]@,
                            (#[trigger] src@[q])@,
                        ) by {
                            if q == j {
                                lemma_lexeme_le_total(src@[j as int]@, src@[j as int]@);
                            } else if q == best {
                            } else {
                                lemma_lexeme_le_trans(
                                    src@[j as int]@,
                                    src@[best as int]@,
                                    src@[q]@,
                                );
                            }
                        }
                    }
                    best = j;
                }
                j = j + 1;
            }
            let ghost src_views = src@.map_values(|w: Lexeme| w@);
            let ghost out_views = out@.map_values(|w: Lexeme| w@);
            proof {
                assert(forall|q: int|
                    0 <= q < src_views.len() ==> spec_lexeme_le(
                        src_views[best as int],
                        #[trigger] src_views[q],
                    ));
            }
            let m = src.remove(best);
            proof {
                assert(src@.map_values(|w: Lexeme| w@) =~= src_views.remove(best as int));
                assert(src_views[best as int] == m@);
                vstd::seq_lib::to_multiset_remove::<LexemeView>(src_views, best as int);
            }
            let ghost out_views2 = out_views.push(m@);
            proof {
                assert(out@.push(m).map_values(|w: Lexeme| w@) =~= out_views2);
                vstd::seq_lib::to_multiset_build::<LexemeView>(out_views, m@);
                assert(src_views.contains(m@)) by {
                    assert(src_views[best as int] == m@);
                }
                vstd::seq_lib::to_multiset_contains::<LexemeView>(src_views, m@);
                assert(out_views.to_multiset().insert(m@).add(
                    src_views.to_multiset().remove(m@),
                ) =~= out_views.to_multiset().add(src_views.to_multiset()));
                assert forall|q: int| 0 <= q < src@.len() implies spec_lexeme_le(
                    m@,
                    (#[trigger] src@[q])@,
                ) by {
                    if q < best {
                        assert(src@[q]@ == src_views[q]);
                    } else {
                        assert(src@[q]@ == src_views[q + 1]);
                    }
                }
            }
            out.push(m);
        }
        proof {
            assert(src@.map_values(|w: Lexeme| w@).to_multiset() =~= vstd::multiset::Multiset::<
                LexemeView,
            >::empty());
            assert(out@.map_values(|w: Lexeme| w@).to_multiset().add(
                vstd::multiset::Multiset::<LexemeView>::empty(),
            ) =~= out@.map_values(|w: Lexeme| w@).to_multiset());
        }
        out
    }
}

/// Determine the word class of a word that has exactly one lexicon
/// entry.
pub fn word_class(lex: &Lexicon, word: &str) -> (r: Option<crate::word::WordClass>)
    requires
        lex.wf(),
    ensures
        ({
            let ms = spec_matches(lex.key_views(), lex.id_views(), spec_fold(word@));
            r == (if ms.len() == 1 {
                Some(lex.lexemes()[ms[0]].word_class)
            } else {
                None::<crate::word::WordClass>
            })
        }),
{
    let mut ents = lex.word_entries(word);
    if ents.len() == 1 {
        match ents.pop() {
            Some(w) => Some(w.word_class()),
            None => None,
        }
    } else {
        None
    }
}

/// Every key of the index leads to lexemes, and at least one lexeme it
/// leads to has a form whose folded image is that key.
pub proof fn lemma_forms_point_to_lexemes(l: Lexicon, p: int)
    requires
        l.wf(),
        0 <= p < l.key_views().len(),
    ensures
        l.key_views().len() == l.id_views().len(),
        l.key_ok(p),
{
    assert(l.key_ok(p));
}

} // verus!
