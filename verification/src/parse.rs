//! The text parser: a lazy tokenizer from bytes to classified chunks,
//! splitting unknown compounds on hyphens and expanding unknown
//! contractions.

use vstd::prelude::*;
use vstd::utf8::valid_utf8;
use crate::chunk::{chunk_step, chunks_of, flush_text};
use crate::contractions::split_chars;
use crate::kind::Kind;
use crate::lex::{spec_fold, Lexicon};
use crate::unicode::{chars_str, is_apostrophe, spec_is_apostrophe, str_chars};
use crate::utf8::{CharSplitter, InvalidUtf8};

verus! {

/// Character chunk types.
#[derive(Clone, Copy, Debug, PartialEq, Eq, Structural)]
pub enum Chunk {
    /// Alphanumeric character or apostrophe text.
    Text,
    /// Any non-`Text` displayable character.
    Symbol,
    /// Word boundary character (whitespace, control, etc.).
    Boundary,
}

/// The kind of a word against a lexicon: in the lexicon, or classified
/// by the surface classifier.
pub open spec fn spec_word_kind(lex: Lexicon, w: Seq<char>) -> Kind {
    if lex.spec_contains_key(spec_fold(w)) {
        Kind::Lexicon
    } else {
        Kind::spec_of(w)
    }
}

/// A token is well kinded: its kind is the word kind of its text, or
/// `Unknown` for a word outside the lexicon whose contraction pieces
/// could not all be classified.
pub open spec fn tok_ok(lex: Lexicon, text: Seq<char>, k: Kind) -> bool {
    ||| k == spec_word_kind(lex, text)
    ||| (k == Kind::Unknown && !lex.spec_contains_key(spec_fold(text)))
}

/// Every queued token is well kinded.
pub open spec fn toks_ok(lex: Lexicon, s: Seq<(Chunk, String, Kind)>) -> bool {
    forall|i: int| 0 <= i < s.len() ==> tok_ok(lex, (#[trigger] s[i]).1@, s[i].2)
}

/// The views of queued tokens.
pub open spec fn triple_views(s: Seq<(Chunk, String, Kind)>) -> Seq<(Chunk, Seq<char>, Kind)> {
    s.map_values(|t: (Chunk, String, Kind)| (t.0, t.1@, t.2))
}

/// The tokens of the non-empty words of a contraction split, each with
/// its word kind.
pub open spec fn spec_piece_tokens(lex: Lexicon, toks: Seq<Seq<char>>) -> Seq<
    (Chunk, Seq<char>, Kind),
>
    decreases toks.len(),
{
    if toks.len() == 0 {
        Seq::empty()
    } else {
        spec_piece_tokens(lex, toks.drop_last()) + (if toks.last().len() > 0 {
            seq![(Chunk::Text, toks.last(), spec_word_kind(lex, toks.last()))]
        } else {
            Seq::empty()
        })
    }
}

/// Whether some non-empty word of a split stays unknown.
pub open spec fn spec_any_unknown(lex: Lexicon, toks: Seq<Seq<char>>) -> bool {
    exists|i: int|
        0 <= i < toks.len() && (#[trigger] toks[i]).len() > 0 && spec_word_kind(lex, toks[i])
            == Kind::Unknown
}

/// Whether a split has any non-empty word.
pub open spec fn spec_any_piece(toks: Seq<Seq<char>>) -> bool {
    exists|i: int| 0 <= i < toks.len() && (#[trigger] toks[i]).len() > 0
}

/// The tokens one word contributes through the contraction pipeline:
/// nothing for an empty word; the word with its kind when it is known
/// or apostrophe-free; its split words when they all classify; else the
/// word whole as `Unknown`.
pub open spec fn spec_contraction_tokens(lex: Lexicon, w: Seq<char>) -> Seq<
    (Chunk, Seq<char>, Kind),
> {
    if w.len() == 0 {
        Seq::empty()
    } else if lex.spec_contains_key(spec_fold(w)) {
        seq![(Chunk::Text, w, Kind::Lexicon)]
    } else if !(exists|i: int| 0 <= i < w.len() && spec_is_apostrophe(#[trigger] w[i])) {
        seq![(Chunk::Text, w, Kind::spec_of(w))]
    } else {
        let toks = crate::contractions::spec_split(w);
        if spec_any_unknown(lex, toks) || !spec_any_piece(toks) {
            seq![(Chunk::Text, w, Kind::Unknown)]
        } else {
            spec_piece_tokens(lex, toks)
        }
    }
}

/// The tokens of a hyphen-split compound: each piece's contraction
/// tokens, with a hyphen symbol between pieces.
pub open spec fn spec_compound_tokens(lex: Lexicon, pieces: Seq<Seq<char>>) -> Seq<
    (Chunk, Seq<char>, Kind),
>
    decreases pieces.len(),
{
    if pieces.len() == 0 {
        Seq::empty()
    } else if pieces.len() == 1 {
        spec_contraction_tokens(lex, pieces[0])
    } else {
        spec_compound_tokens(lex, pieces.drop_last()) + seq![
            (Chunk::Symbol, seq!['-'], spec_word_kind(lex, seq!['-'])),
        ] + spec_contraction_tokens(lex, pieces.last())
    }
}

/// The tokens one chunk contributes: a single character, a known word,
/// or a plain word goes out whole with its word kind; an unknown
/// compound is split on hyphens.
pub open spec fn spec_push_chunk(lex: Lexicon, chunk: Chunk, txt: Seq<char>) -> Seq<
    (Chunk, Seq<char>, Kind),
> {
    if txt.len() == 1 || lex.spec_contains_key(spec_fold(txt)) || !(exists|i: int|
        0 <= i < txt.len() && spec_is_splittable(#[trigger] txt[i])) {
        seq![(chunk, txt, spec_word_kind(lex, txt))]
    } else {
        spec_compound_tokens(lex, crate::word::spec_split_char(txt, '-'))
    }
}

/// The tokens of a chunk stream, in order.
pub open spec fn spec_tokens_of_chunks(lex: Lexicon, chunks: Seq<(Chunk, Seq<char>)>) -> Seq<
    (Chunk, Seq<char>, Kind),
>
    decreases chunks.len(),
{
    if chunks.len() == 0 {
        Seq::empty()
    } else {
        spec_tokens_of_chunks(lex, chunks.drop_last()) + spec_push_chunk(
            lex,
            chunks.last().0,
            chunks.last().1,
        )
    }
}

/// The concatenation of the texts of a token stream.
pub open spec fn concat_tok_texts(s: Seq<(Chunk, Seq<char>, Kind)>) -> Seq<char>
    decreases s.len(),
{
    if s.len() == 0 {
        Seq::empty()
    } else {
        concat_tok_texts(s.drop_last()) + s.last().1
    }
}

/// Token texts concatenate over token-stream concatenation.
proof fn lemma_concat_tok_texts_concat(
    a: Seq<(Chunk, Seq<char>, Kind)>,
    b: Seq<(Chunk, Seq<char>, Kind)>,
)
    ensures
        concat_tok_texts(a + b) == concat_tok_texts(a) + concat_tok_texts(b),
    decreases b.len(),
{
    if b.len() == 0 {
        assert(a + b =~= a);
        assert(concat_tok_texts(a) + concat_tok_texts(b) =~= concat_tok_texts(a));
    } else {
        assert((a + b).drop_last() =~= a + b.drop_last());
        assert((a + b).last() == b.last());
        lemma_concat_tok_texts_concat(a, b.drop_last());
        assert(concat_tok_texts(a) + concat_tok_texts(b.drop_last()) + b.last().1
            =~= concat_tok_texts(a) + (concat_tok_texts(b.drop_last()) + b.last().1));
    }
}

/// Hyphen-split pieces joined back with hyphens.
pub open spec fn spec_join_dash(pieces: Seq<Seq<char>>) -> Seq<char>
    decreases pieces.len(),
{
    if pieces.len() == 0 {
        Seq::empty()
    } else if pieces.len() == 1 {
        pieces[0]
    } else {
        spec_join_dash(pieces.drop_last()) + seq!['-'] + pieces.last()
    }
}

/// Joining peels its first piece.
proof fn lemma_join_dash_cons(x: Seq<char>, ys: Seq<Seq<char>>)
    requires
        ys.len() >= 1,
    ensures
        spec_join_dash(seq![x] + ys) == x + seq!['-'] + spec_join_dash(ys),
    decreases ys.len(),
{
    let s = seq![x] + ys;
    reveal_with_fuel(spec_join_dash, 3);
    if ys.len() == 1 {
        assert(s.drop_last() =~= seq![x]);
        assert(s.last() == ys[0]);
        assert(spec_join_dash(ys) == ys[0]);
        assert(spec_join_dash(seq![x]) == x);
        assert(spec_join_dash(s) =~= x + seq!['-'] + spec_join_dash(ys));
    } else {
        assert(s.drop_last() =~= seq![x] + ys.drop_last());
        assert(s.last() == ys.last());
        lemma_join_dash_cons(x, ys.drop_last());
        assert(x + seq!['-'] + spec_join_dash(ys.drop_last()) + seq!['-'] + ys.last() =~= x
            + seq!['-'] + (spec_join_dash(ys.drop_last()) + seq!['-'] + ys.last()));
    }
}

/// Splitting on hyphens and joining back gives the word.
proof fn lemma_split_join_dash(s: Seq<char>)
    ensures
        spec_join_dash(crate::word::spec_split_char(s, '-')) == s,
    decreases s.len(),
{
    match crate::word::spec_find_char(s, '-') {
        None => {},
        Some(j) => {
            crate::word::lemma_find_char_found(s, '-');
            let rest = crate::word::spec_split_char(s.skip(j + 1), '-');
            assert(rest.len() >= 1);
            lemma_split_join_dash(s.skip(j + 1));
            lemma_join_dash_cons(s.take(j), rest);
            assert(s.take(j) + seq!['-'] + s.skip(j + 1) =~= s);
        },
    }
}

/// A word the contraction pipeline passes through whole (or drops when
/// empty): it is empty, known to the lexicon, or apostrophe-free.
pub open spec fn spec_word_unexpanded(lex: Lexicon, w: Seq<char>) -> bool {
    ||| w.len() == 0
    ||| lex.spec_contains_key(spec_fold(w))
    ||| !(exists|i: int| 0 <= i < w.len() && spec_is_apostrophe(#[trigger] w[i]))
}

/// A chunk whose tokens carry its text unchanged: it goes out whole, or
/// every hyphen piece passes through the contraction pipeline whole.
pub open spec fn spec_chunk_unexpanded(lex: Lexicon, chunk: Chunk, txt: Seq<char>) -> bool {
    ||| txt.len() == 1
    ||| lex.spec_contains_key(spec_fold(txt))
    ||| !(exists|i: int| 0 <= i < txt.len() && spec_is_splittable(#[trigger] txt[i]))
    ||| forall|p: int|
        0 <= p < crate::word::spec_split_char(txt, '-').len() ==> spec_word_unexpanded(
            lex,
            #[trigger] crate::word::spec_split_char(txt, '-')[p],
        )
}

/// An unexpanded word's tokens carry exactly its characters.
proof fn lemma_contraction_tokens_conserve(lex: Lexicon, w: Seq<char>)
    requires
        spec_word_unexpanded(lex, w),
    ensures
        concat_tok_texts(spec_contraction_tokens(lex, w)) == w,
{
    reveal_with_fuel(concat_tok_texts, 3);
    if w.len() == 0 {
        assert(concat_tok_texts(spec_contraction_tokens(lex, w)) =~= w);
    } else {
        let ts = spec_contraction_tokens(lex, w);
        assert(ts.drop_last() =~= Seq::<(Chunk, Seq<char>, Kind)>::empty());
        assert(concat_tok_texts(ts) =~= w);
    }
}

/// An unexpanded compound's tokens carry exactly its pieces joined with
/// hyphens.
proof fn lemma_compound_tokens_conserve(lex: Lexicon, pieces: Seq<Seq<char>>)
    requires
        forall|p: int|
            0 <= p < pieces.len() ==> spec_word_unexpanded(lex, #[trigger] pieces[p]),
    ensures
        concat_tok_texts(spec_compound_tokens(lex, pieces)) == spec_join_dash(pieces),
    decreases pieces.len(),
{
    if pieces.len() == 0 {
        assert(concat_tok_texts(spec_compound_tokens(lex, pieces)) =~= spec_join_dash(pieces));
    } else if pieces.len() == 1 {
        lemma_contraction_tokens_conserve(lex, pieces[0]);
    } else {
        lemma_compound_tokens_conserve(lex, pieces.drop_last());
        lemma_contraction_tokens_conserve(lex, pieces.last());
        let dash = seq![(Chunk::Symbol, seq!['-'], spec_word_kind(lex, seq!['-']))];
        lemma_concat_tok_texts_concat(
            spec_compound_tokens(lex, pieces.drop_last()) + dash,
            spec_contraction_tokens(lex, pieces.last()),
        );
        lemma_concat_tok_texts_concat(spec_compound_tokens(lex, pieces.drop_last()), dash);
        reveal_with_fuel(concat_tok_texts, 3);
        assert(dash.drop_last() =~= Seq::<(Chunk, Seq<char>, Kind)>::empty());
        assert(concat_tok_texts(dash) =~= seq!['-']);
        assert(spec_join_dash(pieces.drop_last()) + concat_tok_texts(dash) + pieces.last()
            =~= spec_join_dash(pieces));
    }
}

/// Tokenizer totality: for every chunk stream whose chunks are
/// unexpanded (no contraction rewriting), the concatenated token texts
/// equal the concatenated chunk texts; with the chunker's conservation
/// law, the emitted texts then reproduce the canonicalized input.
pub proof fn lemma_tokens_conserve(lex: Lexicon, chunks: Seq<(Chunk, Seq<char>)>)
    requires
        forall|i: int|
            0 <= i < chunks.len() ==> spec_chunk_unexpanded(
                lex,
                (#[trigger] chunks[i]).0,
                chunks[i].1,
            ),
    ensures
        concat_tok_texts(spec_tokens_of_chunks(lex, chunks)) == crate::chunk::concat_texts(
            chunks,
        ),
    decreases chunks.len(),
{
    reveal_with_fuel(concat_tok_texts, 3);
    if chunks.len() > 0 {
        let c = chunks.last();
        assert(spec_chunk_unexpanded(lex, c.0, c.1));
        lemma_tokens_conserve(lex, chunks.drop_last());
        lemma_concat_tok_texts_concat(
            spec_tokens_of_chunks(lex, chunks.drop_last()),
            spec_push_chunk(lex, c.0, c.1),
        );
        if c.1.len() == 1 || lex.spec_contains_key(spec_fold(c.1)) || !(exists|i: int|
            0 <= i < c.1.len() && spec_is_splittable(#[trigger] c.1[i])) {
            let ts = spec_push_chunk(lex, c.0, c.1);
            assert(ts.drop_last() =~= Seq::<(Chunk, Seq<char>, Kind)>::empty());
            assert(concat_tok_texts(ts) =~= c.1);
        } else {
            lemma_compound_tokens_conserve(lex, crate::word::spec_split_char(c.1, '-'));
            lemma_split_join_dash(c.1);
        }
    }
}

/// Tokenizer totality, end to end: on any character stream whose
/// chunks escape contraction rewriting, the concatenated texts of the
/// full token stream equal the input with its apostrophes
/// canonicalized.  (A chunk whose contraction split is emitted in
/// pieces replaces the word by its expansion, by design; such chunks
/// are the one exclusion.)
pub proof fn lemma_stream_conserves(lex: Lexicon, cs: Seq<char>)
    requires
        forall|i: int|
            0 <= i < crate::chunk::spec_chunks(cs).len() ==> spec_chunk_unexpanded(
                lex,
                (#[trigger] crate::chunk::spec_chunks(cs)[i]).0,
                crate::chunk::spec_chunks(cs)[i].1,
            ),
    ensures
        concat_tok_texts(spec_tokens_of_chunks(lex, crate::chunk::spec_chunks(cs)))
            == crate::chunk::spec_canonical_text(cs),
{
    lemma_tokens_conserve(lex, crate::chunk::spec_chunks(cs));
    crate::chunk::lemma_chunks_conserve(cs);
}

/// Token streams of concatenated chunk streams concatenate.
pub proof fn lemma_tokens_of_chunks_concat(
    lex: Lexicon,
    a: Seq<(Chunk, Seq<char>)>,
    b: Seq<(Chunk, Seq<char>)>,
)
    ensures
        spec_tokens_of_chunks(lex, a + b) == spec_tokens_of_chunks(lex, a)
            + spec_tokens_of_chunks(lex, b),
    decreases b.len(),
{
    if b.len() == 0 {
        assert(a + b =~= a);
        assert(spec_tokens_of_chunks(lex, a) + spec_tokens_of_chunks(lex, b)
            =~= spec_tokens_of_chunks(lex, a));
    } else {
        assert((a + b).drop_last() =~= a + b.drop_last());
        assert((a + b).last() == b.last());
        lemma_tokens_of_chunks_concat(lex, a, b.drop_last());
        assert(spec_tokens_of_chunks(lex, a) + spec_tokens_of_chunks(lex, b.drop_last())
            + spec_push_chunk(lex, b.last().0, b.last().1) =~= spec_tokens_of_chunks(lex, a) + (
        spec_tokens_of_chunks(lex, b.drop_last()) + spec_push_chunk(
            lex,
            b.last().0,
            b.last().1,
        )));
    }
}

/// Get the word kind of a word given as characters.
pub(crate) fn word_kind_chars(lex: &Lexicon, w: &Vec<char>) -> (r: Kind)
    ensures
        r == spec_word_kind(*lex, w@),
{
    if lex.contains_chars(w) {
        Kind::Lexicon
    } else {
        Kind::of_chars(w)
    }
}

/// Check if a character is splittable (a compound or contraction mark).
pub open spec fn spec_is_splittable(c: char) -> bool {
    c == '-' || spec_is_apostrophe(c)
}

/// Whether a word holds a splittable character.
fn any_splittable(w: &Vec<char>) -> (r: bool)
    ensures
        r == exists|i: int| 0 <= i < w@.len() && spec_is_splittable(#[trigger] w@[i]),
{
    let mut i: usize = 0;
    while i < w.len()
        invariant
            i <= w@.len(),
            forall|j: int| 0 <= j < i ==> !spec_is_splittable(#[trigger] w@[j]),
        decreases w@.len() - i,
    {
        let c = w[i];
        if c == '-' || is_apostrophe(c) {
            proof {
                assert(spec_is_splittable(w@[i as int]));
            }
            return true;
        }
        i = i + 1;
    }
    false
}

/// Whether a word holds an apostrophe.
pub(crate) fn any_apostrophe(w: &Vec<char>) -> (r: bool)
    ensures
        r == exists|i: int| 0 <= i < w@.len() && spec_is_apostrophe(#[trigger] w@[i]),
{
    let mut i: usize = 0;
    while i < w.len()
        invariant
            i <= w@.len(),
            forall|j: int| 0 <= j < i ==> !spec_is_apostrophe(#[trigger] w@[j]),
        decreases w@.len() - i,
    {
        if is_apostrophe(w[i]) {
            proof {
                assert(spec_is_apostrophe(w@[i as int]));
            }
            return true;
        }
        i = i + 1;
    }
    false
}

/// Push one word with its computed kind.
fn push_word(lex: &Lexicon, chunks: &mut Vec<(Chunk, String, Kind)>, chunk: Chunk, w: Vec<char>)
    ensures
        final(chunks)@.len() == old(chunks)@.len() + 1,
        forall|i: int| 0 <= i < old(chunks)@.len() ==> final(chunks)@[i] == old(chunks)@[i],
        final(chunks)@.last().0 == chunk,
        final(chunks)@.last().1@ == w@,
        final(chunks)@.last().2 == spec_word_kind(*lex, w@),
{
    let kind = word_kind_chars(lex, &w);
    let s = chars_str(&w);
    chunks.push((chunk, s, kind));
}

/// Push one word, expanding it as a contraction when it holds an
/// apostrophe and is not in the lexicon: pieces that all classify are
/// emitted one by one; when any piece stays unknown, the whole word is
/// emitted as `Unknown`.
fn push_word_check_contraction(lex: &Lexicon, chunks: &mut Vec<(Chunk, String, Kind)>, w: &Vec<
    char,
>)
    ensures
        final(chunks)@.len() >= old(chunks)@.len(),
        forall|i: int| 0 <= i < old(chunks)@.len() ==> final(chunks)@[i] == old(chunks)@[i],
        forall|i: int|
            old(chunks)@.len() <= i < final(chunks)@.len() ==> tok_ok(
                *lex,
                (#[trigger] final(chunks)@[i]).1@,
                final(chunks)@[i].2,
            ) && final(chunks)@[i].0 == Chunk::Text,
        triple_views(final(chunks)@) == triple_views(old(chunks)@) + spec_contraction_tokens(
            *lex,
            w@,
        ),
{
    if w.len() == 0 {
        proof {
            assert(triple_views(chunks@) + spec_contraction_tokens(*lex, w@) =~= triple_views(
                chunks@,
            ));
        }
        return ;
    }
    if lex.contains_chars(w) {
        let s = chars_str(w);
        proof {
            assert(triple_views(chunks@.push((Chunk::Text, s, Kind::Lexicon))) =~~= triple_views(
                chunks@,
            ) + spec_contraction_tokens(*lex, w@));
        }
        chunks.push((Chunk::Text, s, Kind::Lexicon));
        return ;
    }
    if !any_apostrophe(w) {
        let kind = Kind::of_chars(w);
        let s = chars_str(w);
        proof {
            assert(triple_views(chunks@.push((Chunk::Text, s, kind))) =~~= triple_views(chunks@)
                + spec_contraction_tokens(*lex, w@));
        }
        chunks.push((Chunk::Text, s, kind));
        return ;
    }
    let tokens = split_chars(w);
    let ghost tviews = crate::word::seq_views(tokens@);
    // First pass: check that every non-empty word classifies.
    let mut t: usize = 0;
    let mut any_unknown = false;
    let mut any_piece = false;
    while t < tokens.len()
        invariant
            t <= tokens@.len(),
            tviews == crate::word::seq_views(tokens@),
            any_unknown == (exists|q: int|
                0 <= q < t && (#[trigger] tviews[q]).len() > 0 && spec_word_kind(
                    *lex,
                    tviews[q],
                ) == Kind::Unknown),
            any_piece == (exists|q: int| 0 <= q < t && (#[trigger] tviews[q]).len() > 0),
        decreases tokens@.len() - t,
    {
        let ghost had_unknown = any_unknown;
        let ghost had_piece = any_piece;
        let piece = &tokens[t];
        proof {
            assert(tviews[t as int] == tokens@[t as int]@);
        }
        if piece.len() > 0 {
            any_piece = true;
            let k = word_kind_chars(lex, piece);
            if k == Kind::Unknown {
                any_unknown = true;
            }
            proof {
                assert(tviews[t as int].len() > 0);
                if any_unknown && !had_unknown {
                    assert(spec_word_kind(*lex, tviews[t as int]) == Kind::Unknown);
                }
            }
        }
        proof {
            if !any_unknown {
                assert forall|q: int|
                    0 <= q < t + 1 implies !((#[trigger] tviews[q]).len() > 0 && spec_word_kind(
                    *lex,
                    tviews[q],
                ) == Kind::Unknown) by {
                    if q == t {
                        assert(tviews[t as int] == tokens@[t as int]@);
                    }
                }
            }
            if !any_piece {
                assert forall|q: int| 0 <= q < t + 1 implies !((#[trigger] tviews[q]).len()
                    > 0) by {
                    if q == t {
                        assert(tviews[t as int] == tokens@[t as int]@);
                    }
                }
            }
        }
        t = t + 1;
    }
    proof {
        assert(any_unknown == spec_any_unknown(*lex, tviews));
        assert(any_piece == spec_any_piece(tviews));
    }
    if any_unknown || !any_piece {
        let s = chars_str(w);
        proof {
            assert(triple_views(chunks@.push((Chunk::Text, s, Kind::Unknown)))
                =~~= triple_views(chunks@) + spec_contraction_tokens(*lex, w@));
        }
        chunks.push((Chunk::Text, s, Kind::Unknown));
        return ;
    }
    let mut t: usize = 0;
    proof {
        assert(spec_piece_tokens(*lex, tviews.take(0)) =~= Seq::<(Chunk, Seq<char>, Kind)>::empty());
        assert(triple_views(chunks@) + spec_piece_tokens(*lex, tviews.take(0)) =~= triple_views(
            chunks@,
        ));
    }
    while t < tokens.len()
        invariant
            t <= tokens@.len(),
            tviews == crate::word::seq_views(tokens@),
            forall|i: int| 0 <= i < old(chunks)@.len() ==> chunks@[i] == old(chunks)@[i],
            chunks@.len() >= old(chunks)@.len(),
            forall|i: int|
                old(chunks)@.len() <= i < chunks@.len() ==> tok_ok(
                    *lex,
                    (#[trigger] chunks@[i]).1@,
                    chunks@[i].2,
                ) && chunks@[i].0 == Chunk::Text,
            triple_views(chunks@) == triple_views(old(chunks)@) + spec_piece_tokens(
                *lex,
                tviews.take(t as int),
            ),
        decreases tokens@.len() - t,
    {
        let piece = &tokens[t];
        proof {
            assert(tviews[t as int] == tokens@[t as int]@);
            assert(tviews.take(t + 1 as int).drop_last() =~= tviews.take(t as int));
            assert(tviews.take(t + 1 as int).last() == tviews[t as int]);
        }
        if piece.len() > 0 {
            let k = word_kind_chars(lex, piece);
            let s = chars_str(piece);
            proof {
                assert(spec_piece_tokens(*lex, tviews.take(t + 1 as int)) == spec_piece_tokens(
                    *lex,
                    tviews.take(t as int),
                ) + seq![
                    (Chunk::Text, tviews[t as int], spec_word_kind(*lex, tviews[t as int])),
                ]);
                assert(triple_views(chunks@.push((Chunk::Text, s, k))) =~~= triple_views(chunks@)
                    + seq![
                    (Chunk::Text, tviews[t as int], spec_word_kind(*lex, tviews[t as int])),
                ]);
                assert(triple_views(chunks@) + seq![
                    (Chunk::Text, tviews[t as int], spec_word_kind(*lex, tviews[t as int])),
                ] =~~= triple_views(old(chunks)@) + spec_piece_tokens(
                    *lex,
                    tviews.take(t + 1 as int),
                ));
            }
            chunks.push((Chunk::Text, s, k));
        } else {
            proof {
                assert(spec_piece_tokens(*lex, tviews.take(t + 1 as int)) =~= spec_piece_tokens(
                    *lex,
                    tviews.take(t as int),
                ));
            }
        }
        t = t + 1;
    }
    proof {
        assert(tviews.take(tviews.len() as int) =~= tviews);
        assert(spec_contraction_tokens(*lex, w@) == spec_piece_tokens(
            *lex,
            crate::contractions::spec_split(w@),
        ));
    }
}

/// Push one chunk: a single character, a known word, or a plain word
/// goes out whole; an unknown compound is split on hyphens and its
/// pieces offered to the contraction pipeline.
pub(crate) fn push_chunk(
    lex: &Lexicon,
    chunks: &mut Vec<(Chunk, String, Kind)>,
    chunk: Chunk,
    txt: String,
)
    ensures
        final(chunks)@.len() >= old(chunks)@.len(),
        forall|i: int| 0 <= i < old(chunks)@.len() ==> final(chunks)@[i] == old(chunks)@[i],
        forall|i: int|
            old(chunks)@.len() <= i < final(chunks)@.len() ==> tok_ok(
                *lex,
                (#[trigger] final(chunks)@[i]).1@,
                final(chunks)@[i].2,
            ),
        triple_views(final(chunks)@) == triple_views(old(chunks)@) + spec_push_chunk(
            *lex,
            chunk,
            txt@,
        ),
{
    let w = str_chars(txt.as_str());
    if w.len() == 1 || lex.contains_chars(&w) || !any_splittable(&w) {
        proof {
            assert(triple_views(chunks@.push((chunk, txt, spec_word_kind(*lex, w@))))
                =~~= triple_views(chunks@) + spec_push_chunk(*lex, chunk, w@));
        }
        push_word(lex, chunks, chunk, w);
        proof {
            assert(triple_views(chunks@) =~~= triple_views(old(chunks)@) + spec_push_chunk(
                *lex,
                chunk,
                txt@,
            ));
        }
        return ;
    }
    // Not in the lexicon: split the compound on hyphens.
    let pieces = crate::word::split_char(&w, '-');
    let ghost pviews = crate::word::seq_views(pieces@);
    let mut p: usize = 0;
    proof {
        assert(spec_compound_tokens(*lex, pviews.take(0)) =~= Seq::<
            (Chunk, Seq<char>, Kind),
        >::empty());
        assert(triple_views(chunks@) + spec_compound_tokens(*lex, pviews.take(0))
            =~= triple_views(chunks@));
    }
    while p < pieces.len()
        invariant
            p <= pieces@.len(),
            pviews == crate::word::seq_views(pieces@),
            pviews == crate::word::spec_split_char(w@, '-'),
            forall|j: int| 0 <= j < old(chunks)@.len() ==> chunks@[j] == old(chunks)@[j],
            chunks@.len() >= old(chunks)@.len(),
            forall|j: int|
                old(chunks)@.len() <= j < chunks@.len() ==> tok_ok(
                    *lex,
                    (#[trigger] chunks@[j]).1@,
                    chunks@[j].2,
                ),
            triple_views(chunks@) == triple_views(old(chunks)@) + spec_compound_tokens(
                *lex,
                pviews.take(p as int),
            ),
        decreases pieces@.len() - p,
    {
        proof {
            assert(pviews[p as int] == pieces@[p as int]@);
            assert(pviews.take(p + 1 as int).drop_last() =~= pviews.take(p as int));
            assert(pviews.take(p + 1 as int).last() == pviews[p as int]);
            assert(pviews.take(1).len() == 1 && pviews.take(1)[0] == pviews[0]);
        }
        let ghost mid = triple_views(chunks@);
        if p > 0 {
            let dash: Vec<char> = vec!['-'];
            proof {
                assert(dash@ =~= seq!['-']);
            }
            push_word(lex, chunks, Chunk::Symbol, dash);
            proof {
                assert(triple_views(chunks@) =~~= mid + seq![
                    (Chunk::Symbol, seq!['-'], spec_word_kind(*lex, seq!['-'])),
                ]);
            }
        }
        let ghost before_piece = triple_views(chunks@);
        push_word_check_contraction(lex, chunks, &pieces[p]);
        proof {
            assert(triple_views(chunks@) == before_piece + spec_contraction_tokens(
                *lex,
                pviews[p as int],
            ));
            if p == 0 {
                assert(spec_compound_tokens(*lex, pviews.take(1)) == spec_contraction_tokens(
                    *lex,
                    pviews[0],
                ));
                assert(triple_views(chunks@) =~~= triple_views(old(chunks)@)
                    + spec_compound_tokens(*lex, pviews.take(p + 1 as int)));
            } else {
                assert(spec_compound_tokens(*lex, pviews.take(p + 1 as int))
                    == spec_compound_tokens(*lex, pviews.take(p as int)) + seq![
                    (Chunk::Symbol, seq!['-'], spec_word_kind(*lex, seq!['-'])),
                ] + spec_contraction_tokens(*lex, pviews[p as int]));
                assert(triple_views(chunks@) =~~= triple_views(old(chunks)@)
                    + spec_compound_tokens(*lex, pviews.take(p + 1 as int)));
            }
        }
        p = p + 1;
    }
    proof {
        assert(pviews.take(pviews.len() as int) =~= pviews);
        assert(triple_views(chunks@) =~~= triple_views(old(chunks)@) + spec_push_chunk(
            *lex,
            chunk,
            txt@,
        ));
    }
}

/// Tokenize a byte stream against a lexicon: the chunker's chunks, each
/// classified, with unknown compounds and contractions split.  Fails
/// exactly on ill-formed UTF-8.
pub fn tokenize(lex: &Lexicon, bytes: &[u8]) -> (r: Result<
    Vec<(Chunk, String, Kind)>,
    InvalidUtf8,
>)
    ensures
        r is Ok <==> valid_utf8(bytes@),
        r matches Ok(v) ==> toks_ok(*lex, v@),
        r matches Ok(v) ==> triple_views(v@) == spec_tokens_of_chunks(
            *lex,
            crate::chunk::spec_chunks(vstd::utf8::decode_utf8(bytes@)),
        ),
{
    let cs = match chunks_of(bytes) {
        Ok(cs) => cs,
        Err(e) => {
            return Err(e);
        },
    };
    let ghost cviews = crate::chunk::chunk_views(cs@);
    let mut out: Vec<(Chunk, String, Kind)> = Vec::new();
    let mut i: usize = 0;
    proof {
        assert(spec_tokens_of_chunks(*lex, cviews.take(0)) =~= Seq::<
            (Chunk, Seq<char>, Kind),
        >::empty());
        assert(triple_views(out@) =~= Seq::<(Chunk, Seq<char>, Kind)>::empty());
    }
    while i < cs.len()
        invariant
            i <= cs@.len(),
            cviews == crate::chunk::chunk_views(cs@),
            toks_ok(*lex, out@),
            triple_views(out@) == spec_tokens_of_chunks(*lex, cviews.take(i as int)),
        decreases cs@.len() - i,
    {
        let kind = cs[i].0;
        let txt = {
            let t = str_chars(cs[i].1.as_str());
            chars_str(&t)
        };
        proof {
            assert(cviews[i as int] == (cs@[i as int].0, cs@[i as int].1@));
            assert(txt@ == cviews[i as int].1);
            assert(cviews.take(i + 1 as int).drop_last() =~= cviews.take(i as int));
            assert(cviews.take(i + 1 as int).last() == cviews[i as int]);
        }
        push_chunk(lex, &mut out, kind, txt);
        proof {
            assert(triple_views(out@) =~~= spec_tokens_of_chunks(
                *lex,
                cviews.take(i + 1 as int),
            ));
        }
        i = i + 1;
    }
    proof {
        assert(cviews.take(cviews.len() as int) =~= cviews);
    }
    Ok(out)
}

/// Text parser: a lazy iterator of classified chunks.
pub struct Parser<'a> {
    /// Word lexicon.
    lex: &'a Lexicon,
    /// Text character splitter.
    splitter: CharSplitter<'a>,
    /// Current text chunk.
    text: Vec<char>,
    /// Processed chunks, waiting to be handed out.
    chunks: Vec<(Chunk, String, Kind)>,
    /// The tokens already handed out.
    emitted: Ghost<Seq<(Chunk, Seq<char>, Kind)>>,
}

impl<'a> Parser<'a> {
    /// The lexicon the parser classifies against.
    pub closed spec fn lexicon(self) -> Lexicon {
        *self.lex
    }

    /// The input bytes the parser was created over.
    pub closed spec fn input(self) -> Seq<u8> {
        self.splitter.input()
    }

    /// The tokens handed out so far.
    pub closed spec fn emitted(self) -> Seq<(Chunk, Seq<char>, Kind)> {
        self.emitted@
    }

    /// The full token stream of the input: the tokens of its chunks.
    pub open spec fn stream(self) -> Seq<(Chunk, Seq<char>, Kind)> {
        spec_tokens_of_chunks(
            self.lexicon(),
            crate::chunk::spec_chunks(vstd::utf8::decode_utf8(self.input())),
        )
    }

    /// The parser state is well formed: the splitter is sound, every
    /// queued token is well kinded, and on well-formed input the tokens
    /// handed out, the queue, and the tokens still to come make up the
    /// input's whole token stream.
    pub closed spec fn wf(self) -> bool {
        &&& self.splitter.wf()
        &&& toks_ok(*self.lex, self.chunks@)
        &&& (valid_utf8(self.input()) <==> valid_utf8(self.splitter.remaining()))
        &&& (valid_utf8(self.input()) ==> self.stream() == self.emitted@ + triple_views(
            self.chunks@,
        ) + spec_tokens_of_chunks(
            *self.lex,
            crate::chunk::spec_chunks_from(
                self.text@,
                vstd::utf8::decode_utf8(self.splitter.remaining()),
            ),
        ))
    }

    /// Create a new parser over the given bytes.
    pub fn new(lex: &'a Lexicon, bytes: &'a [u8]) -> (r: Parser<'a>)
        ensures
            r.wf(),
            r.lexicon() == *lex,
            r.input() == bytes@,
            r.emitted() == Seq::<(Chunk, Seq<char>, Kind)>::empty(),
    {
        let r = Parser {
            lex,
            splitter: CharSplitter::new(bytes),
            text: Vec::new(),
            chunks: Vec::new(),
            emitted: Ghost(Seq::empty()),
        };
        proof {
            assert(triple_views(r.chunks@) =~= Seq::<(Chunk, Seq<char>, Kind)>::empty());
            if valid_utf8(bytes@) {
                assert(r.emitted@ + triple_views(r.chunks@) + spec_tokens_of_chunks(
                    *lex,
                    crate::chunk::spec_chunks_from(
                        r.text@,
                        vstd::utf8::decode_utf8(bytes@),
                    ),
                ) =~= r.stream());
            }
        }
        r
    }

    /// Queue the classified forms of freshly produced chunks.
    fn enqueue(&mut self, out: &Vec<(Chunk, String)>)
        requires
            old(self).splitter.wf(),
            toks_ok(*old(self).lex, old(self).chunks@),
        ensures
            final(self).lex == old(self).lex,
            final(self).splitter == old(self).splitter,
            final(self).text == old(self).text,
            final(self).emitted == old(self).emitted,
            toks_ok(*final(self).lex, final(self).chunks@),
            triple_views(final(self).chunks@) == triple_views(old(self).chunks@)
                + spec_tokens_of_chunks(*old(self).lex, crate::chunk::chunk_views(out@)),
    {
        let ghost cviews = crate::chunk::chunk_views(out@);
        let mut i: usize = 0;
        proof {
            assert(spec_tokens_of_chunks(*self.lex, cviews.take(0)) =~= Seq::<
                (Chunk, Seq<char>, Kind),
            >::empty());
            assert(triple_views(self.chunks@) + spec_tokens_of_chunks(*self.lex, cviews.take(0))
                =~= triple_views(self.chunks@));
        }
        while i < out.len()
            invariant
                i <= out@.len(),
                cviews == crate::chunk::chunk_views(out@),
                self.lex == old(self).lex,
                self.splitter == old(self).splitter,
                self.text == old(self).text,
                self.emitted == old(self).emitted,
                toks_ok(*self.lex, self.chunks@),
                triple_views(self.chunks@) == triple_views(old(self).chunks@)
                    + spec_tokens_of_chunks(*self.lex, cviews.take(i as int)),
            decreases out@.len() - i,
        {
            let kind = out[i].0;
            let txt = {
                let t = str_chars(out[i].1.as_str());
                chars_str(&t)
            };
            proof {
                assert(cviews[i as int] == (out@[i as int].0, out@[i as int].1@));
                assert(txt@ == cviews[i as int].1);
                assert(cviews.take(i + 1 as int).drop_last() =~= cviews.take(i as int));
                assert(cviews.take(i + 1 as int).last() == cviews[i as int]);
            }
            push_chunk(self.lex, &mut self.chunks, kind, txt);
            proof {
                assert(triple_views(self.chunks@) =~~= triple_views(old(self).chunks@)
                    + spec_tokens_of_chunks(*self.lex, cviews.take(i + 1 as int)));
            }
            i = i + 1;
        }
        proof {
            assert(cviews.take(cviews.len() as int) =~= cviews);
        }
    }

    /// Read characters until at least one token is queued or the input
    /// ends.
    fn read_chunk(&mut self) -> (r: Result<(), InvalidUtf8>)
        requires
            old(self).wf(),
        ensures
            final(self).wf(),
            final(self).lexicon() == old(self).lexicon(),
            final(self).input() == old(self).input(),
            final(self).emitted() == old(self).emitted(),
            r is Err ==> !valid_utf8(old(self).input()),
            r is Ok && final(self).chunks@.len() == 0 ==> final(self).splitter.remaining().len()
                == 0 && final(self).text@.len() == 0,
    {
        loop
            invariant_except_break
                self.wf(),
                self.lex == old(self).lex,
                self.input() == old(self).input(),
                self.emitted == old(self).emitted,
            ensures
                self.wf(),
                self.lex == old(self).lex,
                self.input() == old(self).input(),
                self.emitted == old(self).emitted,
                self.chunks@.len() == 0 ==> self.splitter.remaining().len() == 0
                    && self.text@.len() == 0,
            decreases self.splitter.remaining().len(),
        {
            let ghost rem = self.splitter.remaining();
            let next = self.splitter.next_char();
            match next {
                None => {
                    proof {
                        assert(valid_utf8(self.splitter.remaining()));
                        assert(vstd::utf8::decode_utf8(self.splitter.remaining()) =~= Seq::<
                            char,
                        >::empty());
                    }
                    let mut out: Vec<(Chunk, String)> = Vec::new();
                    let ghost t0 = self.text@;
                    flush_text(&mut self.text, &mut out);
                    proof {
                        assert(crate::chunk::chunk_views(out@)
                            =~= crate::chunk::spec_chunks_from(t0, Seq::<char>::empty()));
                    }
                    self.enqueue(&out);
                    proof {
                        if valid_utf8(self.input()) {
                            crate::parse::lemma_tokens_of_chunks_concat(
                                *self.lex,
                                crate::chunk::chunk_views(out@),
                                crate::chunk::spec_chunks_from(
                                    self.text@,
                                    Seq::<char>::empty(),
                                ),
                            );
                            assert(crate::chunk::spec_chunks_from(
                                self.text@,
                                vstd::utf8::decode_utf8(self.splitter.remaining()),
                            ) =~= Seq::<(Chunk, Seq<char>)>::empty());
                            assert(self.stream() =~= self.emitted@ + triple_views(self.chunks@)
                                + spec_tokens_of_chunks(
                                *self.lex,
                                crate::chunk::spec_chunks_from(
                                    self.text@,
                                    vstd::utf8::decode_utf8(self.splitter.remaining()),
                                ),
                            ));
                        }
                    }
                    break ;
                },
                Some(Err(e)) => {
                    proof {
                        assert(!valid_utf8(rem));
                    }
                    return Err(e);
                },
                Some(Ok(c)) => {
                    proof {
                        vstd::utf8::char_is_scalar(c);
                        vstd::utf8::char_u32_cast(c, vstd::utf8::decode_first_scalar(rem));
                        if valid_utf8(rem) {
                            assert(vstd::utf8::decode_utf8(rem) == seq![c]
                                + vstd::utf8::decode_utf8(self.splitter.remaining()));
                            assert(vstd::utf8::decode_utf8(rem)[0] == c);
                            assert(vstd::utf8::decode_utf8(rem).skip(1)
                                =~= vstd::utf8::decode_utf8(self.splitter.remaining()));
                        }
                    }
                    let mut out: Vec<(Chunk, String)> = Vec::new();
                    let ghost t0 = self.text@;
                    chunk_step(&mut self.text, &mut out, c);
                    proof {
                        assert(crate::chunk::chunk_views(out@) =~= crate::chunk::spec_step(
                            t0,
                            c,
                        ).0);
                    }
                    self.enqueue(&out);
                    proof {
                        if valid_utf8(self.input()) {
                            assert(crate::chunk::spec_chunks_from(
                                t0,
                                vstd::utf8::decode_utf8(rem),
                            ) == crate::chunk::spec_step(t0, c).0 + crate::chunk::spec_chunks_from(
                                self.text@,
                                vstd::utf8::decode_utf8(self.splitter.remaining()),
                            ));
                            crate::parse::lemma_tokens_of_chunks_concat(
                                *self.lex,
                                crate::chunk::spec_step(t0, c).0,
                                crate::chunk::spec_chunks_from(
                                    self.text@,
                                    vstd::utf8::decode_utf8(self.splitter.remaining()),
                                ),
                            );
                            assert(self.stream() =~= self.emitted@ + triple_views(self.chunks@)
                                + spec_tokens_of_chunks(
                                *self.lex,
                                crate::chunk::spec_chunks_from(
                                    self.text@,
                                    vstd::utf8::decode_utf8(self.splitter.remaining()),
                                ),
                            ));
                        }
                    }
                    if self.chunks.len() > 0 {
                        break ;
                    }
                },
            }
        }
        Ok(())
    }

    /// Get the next classified chunk: `None` at the end of the input
    /// (by then, on well-formed input, the handed-out tokens are the
    /// input's whole token stream), the UTF-8 error when the input
    /// bytes are ill-formed.
    pub fn next(&mut self) -> (r: Option<Result<(Chunk, String, Kind), InvalidUtf8>>)
        requires
            old(self).wf(),
        ensures
            final(self).wf(),
            final(self).lexicon() == old(self).lexicon(),
            final(self).input() == old(self).input(),
            r matches Some(Ok(t)) ==> tok_ok(final(self).lexicon(), t.1@, t.2)
                && final(self).emitted() == old(self).emitted().push((t.0, t.1@, t.2)),
            r is None ==> final(self).emitted() == old(self).emitted() && (valid_utf8(
                old(self).input(),
            ) ==> final(self).emitted() == final(self).stream()),
            r matches Some(Err(e)) ==> !valid_utf8(old(self).input()) && final(self).emitted()
                == old(self).emitted(),
    {
        if self.chunks.len() == 0 {
            match self.read_chunk() {
                Ok(()) => {},
                Err(e) => {
                    return Some(Err(e));
                },
            }
        }
        if self.chunks.len() > 0 {
            let ghost q0 = self.chunks@;
            let t = self.chunks.remove(0);
            proof {
                assert(t == q0[0]);
                assert(triple_views(q0) =~= seq![(t.0, t.1@, t.2)] + triple_views(
                    self.chunks@,
                ));
                self.emitted@ = self.emitted@.push((t.0, t.1@, t.2));
                if valid_utf8(self.input()) {
                    assert(self.emitted@ + triple_views(self.chunks@) =~= old(self).emitted()
                        + triple_views(q0));
                    assert(self.stream() == self.emitted@ + triple_views(self.chunks@)
                        + spec_tokens_of_chunks(
                        *self.lex,
                        crate::chunk::spec_chunks_from(
                            self.text@,
                            vstd::utf8::decode_utf8(self.splitter.remaining()),
                        ),
                    )) by {
                        assert(old(self).emitted() + triple_views(q0) + spec_tokens_of_chunks(
                            *self.lex,
                            crate::chunk::spec_chunks_from(
                                self.text@,
                                vstd::utf8::decode_utf8(self.splitter.remaining()),
                            ),
                        ) =~= self.emitted@ + triple_views(self.chunks@)
                            + spec_tokens_of_chunks(
                            *self.lex,
                            crate::chunk::spec_chunks_from(
                                self.text@,
                                vstd::utf8::decode_utf8(self.splitter.remaining()),
                            ),
                        ));
                    }
                }
            }
            Some(Ok(t))
        } else {
            proof {
                if valid_utf8(self.input()) {
                    assert(crate::chunk::spec_chunks_from(
                        self.text@,
                        vstd::utf8::decode_utf8(self.splitter.remaining()),
                    ) =~= Seq::<(Chunk, Seq<char>)>::empty());
                    assert(triple_views(self.chunks@) =~= Seq::<
                        (Chunk, Seq<char>, Kind),
                    >::empty());
                    assert(self.emitted@ =~= self.stream());
                }
            }
            None
        }
    }
}

} // verus!
