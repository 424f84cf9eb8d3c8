//! Chunking: classify each character as text, symbol or boundary, and
//! accumulate text runs, hyphenated compounds and dotted acronyms.

use vstd::prelude::*;
use vstd::utf8::{decode_utf8, valid_utf8};
use crate::parse::Chunk;
use crate::unicode::{
    alnum_char, canonical_char, char_is_alphanumeric, chars_str, is_apostrophe, is_boundary,
    spec_canonical_char, spec_is_apostrophe, spec_is_boundary, upper_char,
};
use crate::unicode::char_is_uppercase;
use crate::utf8::{CharSplitter, InvalidUtf8};

verus! {

/// Handler for parsing text chunks.
pub trait ChunkHandler {
    /// Handle a text chunk.
    fn text(&mut self, ch: &str);

    /// Handle a symbol chunk.
    fn symbol(&mut self, ch: &str);

    /// Handle a boundary chunk.
    fn boundary(&mut self, ch: &str);
}

/// The views of emitted chunks.
pub open spec fn chunk_views(s: Seq<(Chunk, String)>) -> Seq<(Chunk, Seq<char>)> {
    s.map_values(|p: (Chunk, String)| (p.0, p.1@))
}

/// The number of dots in a pending text run.
pub open spec fn dot_count(s: Seq<char>) -> nat
    decreases s.len(),
{
    if s.len() == 0 {
        0
    } else {
        dot_count(s.drop_last()) + (if s.last() == '.' {
            1nat
        } else {
            0nat
        })
    }
}

/// A dot may extend the pending text when that text is a dotted
/// uppercase run (an acronym in the making) not already ending in a dot.
pub open spec fn spec_is_dot_appendable(t: Seq<char>) -> bool {
    t.len() > 0 && (forall|i: int| 0 <= i < t.len() ==> upper_char(#[trigger] t[i]) || t[i] == '.')
        && t.last() != '.'
}

/// Check if a dot is appendable.
pub(crate) fn is_dot_appendable(t: &Vec<char>) -> (r: bool)
    ensures
        r == spec_is_dot_appendable(t@),
{
    if t.len() == 0 {
        return false;
    }
    if t[t.len() - 1] == '.' {
        return false;
    }
    let mut i: usize = 0;
    while i < t.len()
        invariant
            i <= t@.len(),
            forall|j: int| 0 <= j < i ==> upper_char(#[trigger] t@[j]) || t@[j] == '.',
        decreases t@.len() - i,
    {
        let c = t[i];
        if !(char_is_uppercase(c) || c == '.') {
            return false;
        }
        i = i + 1;
    }
    true
}

/// Count the dots in the pending text.
fn count_dots(t: &Vec<char>) -> (r: usize)
    ensures
        r as nat == dot_count(t@),
{
    let mut r: usize = 0;
    let mut i: usize = 0;
    while i < t.len()
        invariant
            i <= t@.len(),
            r as nat == dot_count(t@.take(i as int)),
            r <= i,
        decreases t@.len() - i,
    {
        proof {
            assert(t@.take(i + 1 as int).drop_last() =~= t@.take(i as int));
            assert(t@.take(i + 1 as int).last() == t@[i as int]);
        }
        if t[i] == '.' {
            r = r + 1;
        }
        i = i + 1;
    }
    proof {
        assert(t@.take(t@.len() as int) =~= t@);
    }
    r
}

/// What flushing the pending text emits: nothing when it is empty; the
/// text without its final dot plus a dot symbol, when the text ends with
/// its only dot and has more than two characters; else the whole text.
pub open spec fn spec_push_text(t: Seq<char>) -> Seq<(Chunk, Seq<char>)> {
    if t.len() == 0 {
        Seq::empty()
    } else if t.last() == '.' && dot_count(t) == 1 && t.len() > 2 {
        seq![(Chunk::Text, t.drop_last()), (Chunk::Symbol, seq!['.'])]
    } else {
        seq![(Chunk::Text, t)]
    }
}

/// Flush the pending text as chunks.
pub(crate) fn flush_text(text: &mut Vec<char>, out: &mut Vec<(Chunk, String)>)
    ensures
        chunk_views(final(out)@) == chunk_views(old(out)@) + spec_push_text(old(text)@),
        final(text)@ == Seq::<char>::empty(),
{
    if text.len() == 0 {
        proof {
            assert(chunk_views(out@) + spec_push_text(text@) =~= chunk_views(out@));
        }
        text.clear();
        return ;
    }
    let n = text.len();
    let dots = count_dots(text);
    if text[n - 1] == '.' && dots == 1 && n > 2 {
        let head = crate::word::take_prefix(text, n - 1);
        let hs = chars_str(&head);
        let dv: Vec<char> = vec!['.'];
        proof {
            assert(dv@ =~= seq!['.']);
        }
        let dot = chars_str(&dv);
        proof {
            assert(text@.take(n - 1) =~= text@.drop_last());
            assert(chunk_views(out@.push((Chunk::Text, hs)).push((Chunk::Symbol, dot)))
                =~~= chunk_views(out@) + spec_push_text(text@));
        }
        out.push((Chunk::Text, hs));
        out.push((Chunk::Symbol, dot));
    } else {
        let ts = chars_str(text);
        proof {
            assert(chunk_views(out@.push((Chunk::Text, ts))) =~~= chunk_views(out@)
                + spec_push_text(text@));
        }
        out.push((Chunk::Text, ts));
    }
    text.clear();
    proof {
        assert(text@ =~= Seq::<char>::empty());
    }
}

/// One character the chunker emits inside a text run: apostrophes are
/// canonicalized, all other characters stand as they are.
pub open spec fn spec_emitted_char(c: char) -> char {
    if spec_is_boundary(c) {
        c
    } else if alnum_char(c) || spec_is_apostrophe(c) {
        if spec_is_apostrophe(c) {
            '\u{2019}'
        } else {
            c
        }
    } else {
        c
    }
}

/// One step of the chunker on the next character: what is emitted, and
/// the new pending text.
pub open spec fn spec_step(t: Seq<char>, c: char) -> (Seq<(Chunk, Seq<char>)>, Seq<char>) {
    if spec_is_boundary(c) {
        (spec_push_text(t) + seq![(Chunk::Boundary, seq![c])], Seq::empty())
    } else if alnum_char(c) || spec_is_apostrophe(c) {
        (
            Seq::empty(),
            t.push(
                if spec_is_apostrophe(c) {
                    '\u{2019}'
                } else {
                    c
                },
            ),
        )
    } else {
        if c == '-' && t.len() > 0 && t.last() != '-' {
            (Seq::empty(), t.push('-'))
        } else if c == '.' && spec_is_dot_appendable(t) {
            (Seq::empty(), t.push('.'))
        } else {
            (spec_push_text(t) + seq![(Chunk::Symbol, seq![c])], Seq::empty())
        }
    }
}

/// Feed one character to the chunker.
pub(crate) fn chunk_step(text: &mut Vec<char>, out: &mut Vec<(Chunk, String)>, c: char)
    ensures
        chunk_views(final(out)@) == chunk_views(old(out)@) + spec_step(old(text)@, c).0,
        final(text)@ == spec_step(old(text)@, c).1,
{
    if is_boundary(c) {
        flush_text(text, out);
        let cv: Vec<char> = vec![c];
        proof {
            assert(cv@ =~= seq![c]);
        }
        let cs = chars_str(&cv);
        proof {
            assert(chunk_views(out@.push((Chunk::Boundary, cs))) =~~= chunk_views(out@) + seq![
                (Chunk::Boundary, seq![c]),
            ]);
            assert(chunk_views(old(out)@) + spec_push_text(old(text)@) + seq![
                (Chunk::Boundary, seq![c]),
            ] =~~= chunk_views(old(out)@) + spec_step(old(text)@, c).0);
        }
        out.push((Chunk::Boundary, cs));
    } else if char_is_alphanumeric(c) || is_apostrophe(c) {
        proof {
            assert(chunk_views(out@) + Seq::<(Chunk, Seq<char>)>::empty() =~= chunk_views(out@));
        }
        match canonical_char(c) {
            Some(k) => {
                text.push(k);
            },
            None => {
                text.push(c);
            },
        }
    } else {
        let n = text.len();
        if c == '-' && n > 0 && text[n - 1] != '-' {
            proof {
                assert(chunk_views(out@) + Seq::<(Chunk, Seq<char>)>::empty() =~= chunk_views(
                    out@,
                ));
            }
            text.push('-');
        } else if c == '.' && is_dot_appendable(text) {
            proof {
                assert(chunk_views(out@) + Seq::<(Chunk, Seq<char>)>::empty() =~= chunk_views(
                    out@,
                ));
            }
            text.push('.');
        } else {
            flush_text(text, out);
            let cv: Vec<char> = vec![c];
            proof {
                assert(cv@ =~= seq![c]);
            }
            let cs = chars_str(&cv);
            proof {
                assert(chunk_views(out@.push((Chunk::Symbol, cs))) =~~= chunk_views(out@) + seq![
                    (Chunk::Symbol, seq![c]),
                ]);
                assert(chunk_views(old(out)@) + spec_push_text(old(text)@) + seq![
                    (Chunk::Symbol, seq![c]),
                ] =~~= chunk_views(old(out)@) + spec_step(old(text)@, c).0);
            }
            out.push((Chunk::Symbol, cs));
        }
    }
}

/// The chunks of a character stream, starting from a pending text run.
pub open spec fn spec_chunks_from(t: Seq<char>, cs: Seq<char>) -> Seq<(Chunk, Seq<char>)>
    decreases cs.len(),
{
    if cs.len() == 0 {
        spec_push_text(t)
    } else {
        spec_step(t, cs[0]).0 + spec_chunks_from(spec_step(t, cs[0]).1, cs.skip(1))
    }
}

/// The chunks of a character stream.
pub open spec fn spec_chunks(cs: Seq<char>) -> Seq<(Chunk, Seq<char>)> {
    spec_chunks_from(Seq::empty(), cs)
}

/// Chunk a byte stream: decode UTF-8 and run the chunker over the
/// characters.  Fails exactly on ill-formed UTF-8.
pub fn chunks_of(bytes: &[u8]) -> (r: Result<Vec<(Chunk, String)>, InvalidUtf8>)
    ensures
        r is Ok <==> valid_utf8(bytes@),
        r matches Ok(v) ==> chunk_views(v@) == spec_chunks(decode_utf8(bytes@)),
{
    let mut splitter = CharSplitter::new(bytes);
    let mut text: Vec<char> = Vec::new();
    let mut out: Vec<(Chunk, String)> = Vec::new();
    proof {
        assert(chunk_views(out@) =~= Seq::<(Chunk, Seq<char>)>::empty());
        if valid_utf8(bytes@) {
            assert(Seq::<(Chunk, Seq<char>)>::empty() + spec_chunks_from(
                text@,
                decode_utf8(bytes@),
            ) =~= spec_chunks(decode_utf8(bytes@)));
        }
    }
    loop
        invariant_except_break
            splitter.wf(),
            splitter.input() == bytes@,
            valid_utf8(bytes@) <==> valid_utf8(splitter.remaining()),
            valid_utf8(bytes@) ==> spec_chunks(decode_utf8(bytes@)) == chunk_views(out@)
                + spec_chunks_from(text@, decode_utf8(splitter.remaining())),
        ensures
            valid_utf8(bytes@),
            splitter.remaining().len() == 0,
            spec_chunks(decode_utf8(bytes@)) == chunk_views(out@) + spec_chunks_from(
                text@,
                decode_utf8(splitter.remaining()),
            ),
        decreases splitter.remaining().len(),
    {
        let ghost rem = splitter.remaining();
        match splitter.next_char() {
            None => {
                proof {
                    assert(valid_utf8(splitter.remaining()));
                }
                break ;
            },
            Some(Err(e)) => {
                proof {
                    assert(!valid_utf8(rem));
                }
                return Err(e);
            },
            Some(Ok(c)) => {
                proof {
                    vstd::utf8::char_is_scalar(c);
                    vstd::utf8::char_u32_cast(c, vstd::utf8::decode_first_scalar(rem));
                    if valid_utf8(rem) {
                        assert(decode_utf8(rem) == seq![c] + decode_utf8(
                            splitter.remaining(),
                        ));
                        assert(decode_utf8(rem)[0] == c);
                        assert(decode_utf8(rem).skip(1) =~= decode_utf8(splitter.remaining()));
                    }
                }
                chunk_step(&mut text, &mut out, c);
                proof {
                    if valid_utf8(bytes@) {
                        assert(chunk_views(out@) + spec_chunks_from(
                            text@,
                            decode_utf8(splitter.remaining()),
                        ) =~= spec_chunks(decode_utf8(bytes@)));
                    }
                }
            },
        }
    }
    proof {
        assert(decode_utf8(splitter.remaining()) =~= Seq::<char>::empty());
    }
    let mut final_out = out;
    flush_text(&mut text, &mut final_out);
    Ok(final_out)
}

/// Parse text into chunks, handing each chunk to the handler as it is
/// completed.  Fails exactly on ill-formed UTF-8; the handler keeps
/// whatever chunks were delivered before the failure.
pub fn parse_text<H: ChunkHandler>(bytes: &[u8], handler: &mut H) -> (r: Result<(), InvalidUtf8>)
    ensures
        r is Ok <==> valid_utf8(bytes@),
{
    let mut splitter = CharSplitter::new(bytes);
    let mut text: Vec<char> = Vec::new();
    loop
        invariant_except_break
            splitter.wf(),
            splitter.input() == bytes@,
            valid_utf8(bytes@) <==> valid_utf8(splitter.remaining()),
        ensures
            valid_utf8(bytes@),
        decreases splitter.remaining().len(),
    {
        let ghost rem = splitter.remaining();
        match splitter.next_char() {
            None => {
                proof {
                    assert(valid_utf8(splitter.remaining()));
                }
                break ;
            },
            Some(Err(e)) => {
                proof {
                    assert(!valid_utf8(rem));
                }
                return Err(e);
            },
            Some(Ok(c)) => {
                let mut out: Vec<(Chunk, String)> = Vec::new();
                chunk_step(&mut text, &mut out, c);
                dispatch(handler, &out);
            },
        }
    }
    let mut out: Vec<(Chunk, String)> = Vec::new();
    flush_text(&mut text, &mut out);
    dispatch(handler, &out);
    Ok(())
}

/// The concatenation of the texts of a chunk sequence.
pub open spec fn concat_texts(s: Seq<(Chunk, Seq<char>)>) -> Seq<char>
    decreases s.len(),
{
    if s.len() == 0 {
        Seq::empty()
    } else {
        concat_texts(s.drop_last()) + s.last().1
    }
}

/// Chunk texts concatenate over chunk-sequence concatenation.
proof fn lemma_concat_texts_concat(a: Seq<(Chunk, Seq<char>)>, b: Seq<(Chunk, Seq<char>)>)
    ensures
        concat_texts(a + b) == concat_texts(a) + concat_texts(b),
    decreases b.len(),
{
    if b.len() == 0 {
        assert(a + b =~= a);
        assert(concat_texts(a) + concat_texts(b) =~= concat_texts(a));
    } else {
        assert((a + b).drop_last() =~= a + b.drop_last());
        assert((a + b).last() == b.last());
        lemma_concat_texts_concat(a, b.drop_last());
        assert(concat_texts(a) + concat_texts(b.drop_last()) + b.last().1 =~= concat_texts(a) + (
        concat_texts(b.drop_last()) + b.last().1));
    }
}

/// Flushing the pending text emits exactly its characters.
proof fn lemma_concat_push_text(t: Seq<char>)
    ensures
        concat_texts(spec_push_text(t)) == t,
{
    reveal_with_fuel(concat_texts, 4);
    if t.len() == 0 {
        assert(concat_texts(spec_push_text(t)) =~= t);
    } else if t.last() == '.' && dot_count(t) == 1 && t.len() > 2 {
        let s = spec_push_text(t);
        assert(s.drop_last() =~= seq![(Chunk::Text, t.drop_last())]);
        assert(s.drop_last().drop_last() =~= Seq::<(Chunk, Seq<char>)>::empty());
        assert(concat_texts(s) =~= t.drop_last() + seq!['.']);
        assert(t.drop_last() + seq!['.'] =~= t);
    } else {
        let s = spec_push_text(t);
        assert(s.drop_last() =~= Seq::<(Chunk, Seq<char>)>::empty());
        assert(concat_texts(s) =~= t);
    }
}

/// The input characters, apostrophes canonicalized where the chunker
/// canonicalizes them.
pub open spec fn spec_canonical_text(cs: Seq<char>) -> Seq<char> {
    cs.map_values(|c: char| spec_emitted_char(c))
}

/// The chunker conserves its input: continuing from a pending text run,
/// the concatenated chunk texts are the pending run followed by the
/// canonicalized input.
proof fn lemma_chunks_from_conserve(t: Seq<char>, cs: Seq<char>)
    ensures
        concat_texts(spec_chunks_from(t, cs)) == t + spec_canonical_text(cs),
    decreases cs.len(),
{
    if cs.len() == 0 {
        lemma_concat_push_text(t);
        assert(spec_canonical_text(cs) =~= Seq::<char>::empty());
        assert(t + spec_canonical_text(cs) =~= t);
    } else {
        let c = cs[0];
        let st = spec_step(t, c);
        let rest = cs.skip(1);
        lemma_chunks_from_conserve(st.1, rest);
        lemma_concat_texts_concat(st.0, spec_chunks_from(st.1, rest));
        lemma_concat_push_text(t);
        assert(spec_canonical_text(cs) =~= seq![spec_emitted_char(c)] + spec_canonical_text(
            rest,
        )) by {
            assert forall|i: int| 0 <= i < cs.len() implies #[trigger] spec_canonical_text(
                cs,
            )[i] == (seq![spec_emitted_char(c)] + spec_canonical_text(rest))[i] by {
                if i > 0 {
                    assert(spec_canonical_text(rest)[i - 1] == spec_emitted_char(rest[i - 1]));
                    assert(rest[i - 1] == cs[i]);
                }
            }
        }
        if spec_is_boundary(c) {
            reveal_with_fuel(concat_texts, 3);
            assert(st.0.drop_last() =~= spec_push_text(t));
            assert(concat_texts(st.0) =~= t + seq![c]);
            assert(t + seq![c] + spec_canonical_text(rest) =~= t + spec_canonical_text(cs));
        } else if alnum_char(c) || spec_is_apostrophe(c) {
            assert(concat_texts(st.0) =~= Seq::<char>::empty());
            assert(concat_texts(st.0) + (st.1 + spec_canonical_text(rest)) =~= st.1
                + spec_canonical_text(rest));
            assert(st.1 + spec_canonical_text(rest) =~= t + spec_canonical_text(cs));
        } else {
            if (c == '-' && t.len() > 0 && t.last() != '-') || (c == '.'
                && spec_is_dot_appendable(t)) {
                assert(concat_texts(st.0) =~= Seq::<char>::empty());
                assert(concat_texts(st.0) + (st.1 + spec_canonical_text(rest)) =~= st.1
                    + spec_canonical_text(rest));
                assert(st.1 + spec_canonical_text(rest) =~= t + spec_canonical_text(cs));
            } else {
                reveal_with_fuel(concat_texts, 3);
                assert(st.0.drop_last() =~= spec_push_text(t));
                assert(concat_texts(st.0) =~= t + seq![c]);
                assert(t + seq![c] + spec_canonical_text(rest) =~= t + spec_canonical_text(cs));
            }
        }
    }
}

/// Chunking is total and conserving: for every character stream, the
/// concatenation of all emitted chunk texts equals the stream after
/// apostrophe canonicalization of its text characters.
pub proof fn lemma_chunks_conserve(cs: Seq<char>)
    ensures
        concat_texts(spec_chunks(cs)) == spec_canonical_text(cs),
{
    lemma_chunks_from_conserve(Seq::empty(), cs);
    assert(Seq::<char>::empty() + spec_canonical_text(cs) =~= spec_canonical_text(cs));
}

/// Hand each chunk to the handler.
fn dispatch<H: ChunkHandler>(handler: &mut H, out: &Vec<(Chunk, String)>) {
    let mut i: usize = 0;
    while i < out.len()
        decreases out@.len() - i,
    {
        let kind = out[i].0;
        match kind {
            Chunk::Text => handler.text(out[i].1.as_str()),
            Chunk::Symbol => handler.symbol(out[i].1.as_str()),
            Chunk::Boundary => handler.boundary(out[i].1.as_str()),
        }
        i = i + 1;
    }
}

} // verus!
