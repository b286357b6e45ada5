//! Splitting a formatted summary into pieces that fit Discord's message
//! length limit, and framing them as messages.
use vstd::prelude::*;
use vstd::seq_lib::lemma_flatten_concat;

use crate::chars::{
    lemma_strip_ws_add, lemma_strip_ws_char, lemma_strip_ws_empty, lemma_strip_ws_split,
    lemma_strip_ws_trim, strip_ws, copy_range, has_char, lemma_split_on_len, lemma_trim_idempotent, push_all, split_chars,
    split_on, to_chars, from_chars, trim, trim_chars, trim_end, trim_end_chars, views,
};
use crate::sentences::{
    insert_sentence_line_break_chars, lemma_sentence_breaks_keep_text, with_sentence_breaks,
};
use crate::text::{lemma_normalized_keeps_text, normalize_newline_chars, normalized};

verus! {

/// The longest message, in characters, that Discord accepts.
pub const DISCORD_MAX_MESSAGE_LENGTH: usize = 2000;

/// Whether every piece in `cs` is at most `max` characters long.
pub open spec fn all_within(cs: Seq<Seq<char>>, max: int) -> bool {
    forall|i: int| 0 <= i < cs.len() ==> #[trigger] cs[i].len() <= max
}

// ---------------------------------------------------------------------------
// Splitting one line at spaces
// ---------------------------------------------------------------------------

/// A word longer than `max` cut into pieces of exactly `max` characters,
/// and the remainder of at most `max` characters.
pub open spec fn hard_split(w: Seq<char>, max: int) -> (Seq<Seq<char>>, Seq<char>)
    decreases w.len(),
{
    if max <= 0 || w.len() <= max {
        (Seq::empty(), w)
    } else {
        let r = hard_split(w.skip(max), max);
        (seq![w.take(max)] + r.0, r.1)
    }
}

/// The chunks finished so far and the piece being filled.
pub struct WordState {
    pub chunks: Seq<Seq<char>>,
    pub piece: Seq<char>,
}

/// Adds one word: it joins the current piece (after a space) if the result
/// fits; otherwise the piece is finished and the word starts a new one, cut
/// into full-length pieces first if it is itself too long.
pub open spec fn word_step(st: WordState, w: Seq<char>, max: int) -> WordState {
    let next = if st.piece.len() == 0 {
        w
    } else {
        st.piece + seq![' '] + w
    };
    if next.len() <= max {
        WordState { chunks: st.chunks, piece: next }
    } else {
        let finished = if st.piece.len() > 0 {
            st.chunks.push(trim_end(st.piece))
        } else {
            st.chunks
        };
        let (cut, rest) = hard_split(w, max);
        WordState { chunks: finished + cut, piece: rest }
    }
}

/// The state after adding all of `ws`.
pub open spec fn word_fold(ws: Seq<Seq<char>>, max: int) -> WordState
    decreases ws.len(),
{
    if ws.len() == 0 {
        WordState { chunks: Seq::empty(), piece: Seq::empty() }
    } else {
        word_step(word_fold(ws.drop_last(), max), ws.last(), max)
    }
}

/// A line cut at spaces into chunks of at most `max` characters (words
/// longer than that are cut inside), trailing white space removed from each.
pub open spec fn segment_chunks(seg: Seq<char>, max: int) -> Seq<Seq<char>> {
    let st = word_fold(split_on(seg, ' '), max);
    if st.piece.len() > 0 {
        st.chunks.push(trim_end(st.piece))
    } else {
        st.chunks
    }
}

proof fn lemma_hard_split(w: Seq<char>, max: int)
    requires
        max > 0,
    ensures
        all_within(hard_split(w, max).0, max),
        hard_split(w, max).1.len() <= max,
    decreases w.len(),
{
    if w.len() > max {
        lemma_hard_split(w.skip(max), max);
        let r = hard_split(w.skip(max), max);
        assert forall|i: int| 0 <= i < (seq![w.take(max)] + r.0).len() implies #[trigger] (seq![
            w.take(max),
        ] + r.0)[i].len() <= max by {
            if i > 0 {
                assert((seq![w.take(max)] + r.0)[i] == r.0[i - 1]);
            }
        }
    }
}

proof fn lemma_word_fold(ws: Seq<Seq<char>>, max: int)
    requires
        max > 0,
    ensures
        all_within(word_fold(ws, max).chunks, max),
        word_fold(ws, max).piece.len() <= max,
    decreases ws.len(),
{
    if ws.len() > 0 {
        lemma_word_fold(ws.drop_last(), max);
        let st = word_fold(ws.drop_last(), max);
        let w = ws.last();
        lemma_hard_split(w, max);
        lemma_trim_idempotent(st.piece);
        let finished = if st.piece.len() > 0 {
            st.chunks.push(trim_end(st.piece))
        } else {
            st.chunks
        };
        assert(all_within(finished, max));
        let cut = hard_split(w, max).0;
        assert forall|i: int| 0 <= i < (finished + cut).len() implies #[trigger] (finished
            + cut)[i].len() <= max by {
            if i >= finished.len() {
                assert((finished + cut)[i] == cut[i - finished.len()]);
            } else {
                assert((finished + cut)[i] == finished[i]);
            }
        }
    }
}

/// Every chunk of a line is at most `max` characters long.
pub proof fn lemma_segment_chunks_within(seg: Seq<char>, max: int)
    requires
        max > 0,
    ensures
        all_within(segment_chunks(seg, max), max),
{
    let st = word_fold(split_on(seg, ' '), max);
    lemma_word_fold(split_on(seg, ' '), max);
    lemma_trim_idempotent(st.piece);
}

proof fn lemma_hard_split_text(w: Seq<char>, max: int)
    requires
        max > 0,
    ensures
        hard_split(w, max).0.flatten() + hard_split(w, max).1 == w,
    decreases w.len(),
{
    if w.len() > max {
        lemma_hard_split_text(w.skip(max), max);
        let r = hard_split(w.skip(max), max);
        lemma_flatten_concat(seq![w.take(max)], r.0);
        seq![w.take(max)].lemma_flatten_one_element();
        assert(w =~= w.take(max) + w.skip(max));
    } else {
        assert(Seq::<Seq<char>>::empty().flatten() =~= Seq::<char>::empty());
    }
}

proof fn lemma_word_fold_text(ws: Seq<Seq<char>>, max: int)
    requires
        max > 0,
    ensures
        strip_ws(word_fold(ws, max).chunks.flatten() + word_fold(ws, max).piece) == strip_ws(
            ws.flatten(),
        ),
    decreases ws.len(),
{
    broadcast use Seq::lemma_flatten_push;

    if ws.len() == 0 {
        assert(Seq::<Seq<char>>::empty().flatten() =~= Seq::<char>::empty());
        assert(Seq::<char>::empty() + Seq::<char>::empty() =~= Seq::<char>::empty());
    } else {
        lemma_word_fold_text(ws.drop_last(), max);
        let st = word_fold(ws.drop_last(), max);
        let w = ws.last();
        let f = st.chunks.flatten();
        assert(ws =~= ws.drop_last().push(w));
        assert(ws.flatten() == ws.drop_last().flatten() + w);
        lemma_strip_ws_add(ws.drop_last().flatten(), w);
        lemma_strip_ws_add(f, st.piece);
        lemma_strip_ws_char(' ');
        let next = if st.piece.len() == 0 {
            w
        } else {
            st.piece + seq![' '] + w
        };
        if st.piece.len() == 0 {
            assert(f + st.piece =~= f);
            lemma_strip_ws_add(f, w);
        } else {
            assert(f + next =~= (f + st.piece) + seq![' '] + w);
            lemma_strip_ws_add((f + st.piece) + seq![' '], w);
            lemma_strip_ws_add(f + st.piece, seq![' ']);
            assert(strip_ws(f + st.piece) + Seq::<char>::empty() =~= strip_ws(f + st.piece));
        }
        if next.len() > max {
            let finished = if st.piece.len() > 0 {
                st.chunks.push(trim_end(st.piece))
            } else {
                st.chunks
            };
            let (cut, rest) = hard_split(w, max);
            lemma_hard_split_text(w, max);
            lemma_flatten_concat(finished, cut);
            assert((finished + cut).flatten() + rest =~= finished.flatten() + (cut.flatten()
                + rest));
            lemma_strip_ws_add(finished.flatten(), w);
            if st.piece.len() > 0 {
                assert(finished.flatten() == f + trim_end(st.piece));
                lemma_strip_ws_add(f, trim_end(st.piece));
                lemma_strip_ws_trim(st.piece);
            }
        }
    }
}

/// Cutting a line into chunks keeps its visible text: the characters that
/// are not white space stay, in order.
pub proof fn lemma_segment_chunks_text(seg: Seq<char>, max: int)
    requires
        max > 0,
    ensures
        strip_ws(segment_chunks(seg, max).flatten()) == strip_ws(seg),
{
    broadcast use Seq::lemma_flatten_push;

    let ws = split_on(seg, ' ');
    let st = word_fold(ws, max);
    lemma_word_fold_text(ws, max);
    lemma_strip_ws_split(seg, ' ');
    lemma_strip_ws_add(st.chunks.flatten(), st.piece);
    if st.piece.len() > 0 {
        lemma_strip_ws_add(st.chunks.flatten(), trim_end(st.piece));
        lemma_strip_ws_trim(st.piece);
    } else {
        assert(st.chunks.flatten() + st.piece =~= st.chunks.flatten());
    }
}

/// Every character of `s` is a space.
pub open spec fn all_spaces(s: Seq<char>) -> bool {
    forall|i: int| 0 <= i < s.len() ==> s[i] == ' '
}

proof fn lemma_split_spaces(s: Seq<char>)
    requires
        all_spaces(s),
    ensures
        forall|i: int| 0 <= i < split_on(s, ' ').len() ==> (#[trigger] split_on(s, ' ')[i]).len()
            == 0,
    decreases s.len(),
{
    if s.len() > 0 {
        lemma_split_spaces(s.drop_last());
        let p = split_on(s.drop_last(), ' ');
        assert(s.last() == ' ');
        assert forall|i: int| 0 <= i < split_on(s, ' ').len() implies (#[trigger] split_on(
            s,
            ' ',
        )[i]).len() == 0 by {
            if i < p.len() {
                assert(split_on(s, ' ')[i] == p[i]);
            }
        }
    }
}

proof fn lemma_word_fold_empty_words(ws: Seq<Seq<char>>, max: int)
    requires
        max >= 0,
        forall|i: int| 0 <= i < ws.len() ==> (#[trigger] ws[i]).len() == 0,
    ensures
        word_fold(ws, max).chunks.len() == 0,
        word_fold(ws, max).piece.len() == 0,
    decreases ws.len(),
{
    if ws.len() > 0 {
        lemma_word_fold_empty_words(ws.drop_last(), max);
        assert(ws[ws.len() - 1].len() == 0);
    }
}

/// A line of spaces only gives no chunk, whatever the limit.
pub proof fn lemma_segment_chunks_spaces(seg: Seq<char>, max: int)
    requires
        all_spaces(seg),
        max >= 0,
    ensures
        segment_chunks(seg, max) == Seq::<Seq<char>>::empty(),
{
    lemma_split_spaces(seg);
    lemma_word_fold_empty_words(split_on(seg, ' '), max);
}

/// Cuts a word that is too long; `chunks` gets the full-length pieces and
/// the remainder is returned.
fn cut_word(chunks: &mut Vec<Vec<char>>, w: Vec<char>, max: usize) -> (rest: Vec<char>)
    requires
        max > 0,
    ensures
        views(final(chunks)@) == views(old(chunks)@) + hard_split(w@, max as int).0,
        rest@ == hard_split(w@, max as int).1,
{
    let mut piece = w;
    assert(views(chunks@) =~= views(chunks@) + Seq::<Seq<char>>::empty());
    while piece.len() > max
        invariant
            max > 0,
            views(chunks@) + hard_split(piece@, max as int).0 == views(old(chunks)@) + hard_split(
                w@,
                max as int,
            ).0,
            hard_split(piece@, max as int).1 == hard_split(w@, max as int).1,
        decreases piece@.len(),
    {
        let head = copy_range(piece.as_slice(), 0, max);
        let tail = copy_range(piece.as_slice(), max, piece.len());
        let ghost before = views(chunks@);
        assert(tail@ =~= piece@.skip(max as int));
        assert(head@ =~= piece@.take(max as int));
        chunks.push(head);
        assert(views(chunks@) =~= before.push(head@));
        assert(views(chunks@) + hard_split(tail@, max as int).0 =~= before + hard_split(
            piece@,
            max as int,
        ).0);
        piece = tail;
    }
    piece
}

/// `seg` cut at spaces into chunks of at most `max` characters.
pub fn split_segment_chars(seg: &[char], max: usize) -> (res: Vec<Vec<char>>)
    requires
        max > 0 || all_spaces(seg@),
    ensures
        views(res@) == segment_chunks(seg@, max as int),
{
    if max == 0 {
        proof {
            lemma_segment_chunks_spaces(seg@, 0);
        }
        let none: Vec<Vec<char>> = Vec::new();
        assert(views(none@) =~= Seq::<Seq<char>>::empty());
        return none;
    }
    let ws = split_chars(seg, ' ');
    let mut chunks: Vec<Vec<char>> = Vec::new();
    let mut piece: Vec<char> = Vec::new();
    let mut k: usize = 0;
    assert(views(ws@).take(0) =~= Seq::<Seq<char>>::empty());
    assert(views(chunks@) =~= Seq::<Seq<char>>::empty());
    while k < ws.len()
        invariant
            max > 0,
            k <= ws@.len(),
            views(ws@) == split_on(seg@, ' '),
            (WordState { chunks: views(chunks@), piece: piece@ }) == word_fold(
                views(ws@).take(k as int),
                max as int,
            ),
        decreases ws@.len() - k,
    {
        let w = &ws[k];
        let ghost t = views(ws@).take(k as int + 1);
        assert(t.drop_last() =~= views(ws@).take(k as int));
        assert(t.last() == w@);
        let mut next: Vec<char> = Vec::new();
        if piece.len() > 0 {
            push_all(&mut next, piece.as_slice());
            next.push(' ');
        }
        push_all(&mut next, w.as_slice());
        assert(next@ =~= (if piece@.len() == 0 {
            w@
        } else {
            piece@ + seq![' '] + w@
        }));
        if next.len() <= max {
            piece = next;
        } else {
            if piece.len() > 0 {
                let done = trim_end_chars(piece.as_slice());
                let ghost before = views(chunks@);
                chunks.push(done);
                assert(views(chunks@) =~= before.push(trim_end(piece@)));
            }
            let wc = copy_range(w.as_slice(), 0, w.len());
            assert(wc@ =~= w@);
            piece = cut_word(&mut chunks, wc, max);
        }
        k = k + 1;
    }
    assert(views(ws@).take(ws@.len() as int) =~= views(ws@));
    if piece.len() > 0 {
        let done = trim_end_chars(piece.as_slice());
        let ghost before = views(chunks@);
        chunks.push(done);
        assert(views(chunks@) =~= before.push(trim_end(piece@)));
    }
    chunks
}

/// `segment` cut at spaces into chunks of at most `max_len` characters.  A
/// limit of zero is accepted only for a segment of spaces alone, which gives
/// no chunk.
pub fn split_segment_by_words(segment: &str, max_len: usize) -> (res: Vec<String>)
    requires
        max_len > 0 || all_spaces(segment@),
    ensures
        res@.map_values(|s: String| s@) == segment_chunks(segment@, max_len as int),
{
    let cs = to_chars(segment);
    let parts = split_segment_chars(cs.as_slice(), max_len);
    strings_of(&parts)
}

/// The strings holding each character vector.
pub fn strings_of(parts: &Vec<Vec<char>>) -> (res: Vec<String>)
    ensures
        res@.map_values(|s: String| s@) == views(parts@),
{
    let mut res: Vec<String> = Vec::new();
    let mut k: usize = 0;
    while k < parts.len()
        invariant
            k <= parts@.len(),
            res@.map_values(|s: String| s@) == views(parts@).take(k as int),
        decreases parts@.len() - k,
    {
        let s = from_chars(parts[k].as_slice());
        let ghost before = res@.map_values(|s: String| s@);
        res.push(s);
        assert(res@.map_values(|s: String| s@) =~= before.push(s@));
        assert(views(parts@).take(k as int + 1) =~= views(parts@).take(k as int).push(
            parts@[k as int]@,
        ));
        k = k + 1;
    }
    assert(views(parts@).take(parts@.len() as int) =~= views(parts@));
    res
}

// ---------------------------------------------------------------------------
// Splitting a summary
// ---------------------------------------------------------------------------

/// The lines of a text as segments: each line, with a `\n` segment between
/// neighbours.
pub open spec fn line_segments(ls: Seq<Seq<char>>) -> Seq<Seq<char>>
    decreases ls.len(),
{
    if ls.len() <= 1 {
        ls
    } else {
        line_segments(ls.drop_last()).push(seq!['\n']).push(ls.last())
    }
}

/// The chunks finished so far and the chunk being filled.
pub struct ChunkState {
    pub chunks: Seq<Seq<char>>,
    pub current: Seq<char>,
}

/// Adds one segment: it joins the current chunk if the result fits;
/// otherwise the current chunk is finished, and the segment starts the next
/// chunk, or is cut at spaces if it is itself too long.
pub open spec fn chunk_step(st: ChunkState, seg: Seq<char>, max: int) -> ChunkState {
    let candidate = st.current + seg;
    if candidate.len() <= max {
        ChunkState { chunks: st.chunks, current: candidate }
    } else {
        let finished = if st.current.len() > 0 {
            st.chunks.push(trim_end(st.current))
        } else {
            st.chunks
        };
        if seg.len() <= max {
            ChunkState { chunks: finished, current: seg }
        } else {
            ChunkState { chunks: finished + segment_chunks(seg, max), current: Seq::empty() }
        }
    }
}

/// The state after adding all of `segs`.
pub open spec fn chunk_fold(segs: Seq<Seq<char>>, max: int) -> ChunkState
    decreases segs.len(),
{
    if segs.len() == 0 {
        ChunkState { chunks: Seq::empty(), current: Seq::empty() }
    } else {
        chunk_step(chunk_fold(segs.drop_last(), max), segs.last(), max)
    }
}

/// The trimmed, normalised summary, with one sentence per line if it was a
/// single line.
pub open spec fn chunk_source(s: Seq<char>) -> Seq<char> {
    let cleaned = trim(normalized(s));
    if cleaned.contains('\n') {
        cleaned
    } else {
        with_sentence_breaks(cleaned)
    }
}

/// A summary cut into chunks of at most `max` characters, at line breaks
/// where possible and at spaces otherwise; an empty summary gives one empty
/// chunk.
pub open spec fn summary_chunks(s: Seq<char>, max: int) -> Seq<Seq<char>> {
    if trim(normalized(s)).len() == 0 {
        seq![Seq::empty()]
    } else {
        let st = chunk_fold(line_segments(split_on(chunk_source(s), '\n')), max);
        let chunks = if st.current.len() > 0 {
            st.chunks.push(trim_end(st.current))
        } else {
            st.chunks
        };
        if chunks.len() == 0 {
            seq![Seq::empty()]
        } else {
            chunks
        }
    }
}

proof fn lemma_chunk_fold(segs: Seq<Seq<char>>, max: int)
    requires
        max > 0,
    ensures
        all_within(chunk_fold(segs, max).chunks, max),
        chunk_fold(segs, max).current.len() <= max,
    decreases segs.len(),
{
    if segs.len() > 0 {
        lemma_chunk_fold(segs.drop_last(), max);
        let st = chunk_fold(segs.drop_last(), max);
        let seg = segs.last();
        lemma_trim_idempotent(st.current);
        lemma_segment_chunks_within(seg, max);
        let finished = if st.current.len() > 0 {
            st.chunks.push(trim_end(st.current))
        } else {
            st.chunks
        };
        assert(all_within(finished, max));
        let sc = segment_chunks(seg, max);
        assert forall|i: int| 0 <= i < (finished + sc).len() implies #[trigger] (finished
            + sc)[i].len() <= max by {
            if i >= finished.len() {
                assert((finished + sc)[i] == sc[i - finished.len()]);
            } else {
                assert((finished + sc)[i] == finished[i]);
            }
        }
    }
}

/// A summary always gives at least one chunk, and every chunk is at most
/// `max` characters long.
pub proof fn lemma_summary_chunks_within(s: Seq<char>, max: int)
    requires
        max > 0,
    ensures
        summary_chunks(s, max).len() >= 1,
        all_within(summary_chunks(s, max), max),
{
    if trim(normalized(s)).len() > 0 {
        let st = chunk_fold(line_segments(split_on(chunk_source(s), '\n')), max);
        lemma_chunk_fold(line_segments(split_on(chunk_source(s), '\n')), max);
        lemma_trim_idempotent(st.current);
    }
}

proof fn lemma_line_segments_text(ls: Seq<Seq<char>>)
    ensures
        strip_ws(line_segments(ls).flatten()) == strip_ws(ls.flatten()),
    decreases ls.len(),
{
    broadcast use Seq::lemma_flatten_push;

    if ls.len() > 1 {
        lemma_line_segments_text(ls.drop_last());
        let l = line_segments(ls.drop_last());
        assert(ls =~= ls.drop_last().push(ls.last()));
        let nl: Seq<char> = seq!['\n'];
        assert(line_segments(ls).flatten() == l.flatten() + nl + ls.last());
        lemma_strip_ws_add(l.flatten() + nl, ls.last());
        lemma_strip_ws_add(l.flatten(), nl);
        lemma_strip_ws_char('\n');
        lemma_strip_ws_add(ls.drop_last().flatten(), ls.last());
        assert(strip_ws(l.flatten()) + Seq::<char>::empty() =~= strip_ws(l.flatten()));
    }
}

proof fn lemma_chunk_fold_text(segs: Seq<Seq<char>>, max: int)
    requires
        max > 0,
    ensures
        strip_ws(chunk_fold(segs, max).chunks.flatten() + chunk_fold(segs, max).current)
            == strip_ws(segs.flatten()),
    decreases segs.len(),
{
    broadcast use Seq::lemma_flatten_push;

    if segs.len() == 0 {
        assert(Seq::<Seq<char>>::empty().flatten() =~= Seq::<char>::empty());
        assert(Seq::<char>::empty() + Seq::<char>::empty() =~= Seq::<char>::empty());
    } else {
        lemma_chunk_fold_text(segs.drop_last(), max);
        let st = chunk_fold(segs.drop_last(), max);
        let seg = segs.last();
        let f = st.chunks.flatten();
        assert(segs =~= segs.drop_last().push(seg));
        assert(segs.flatten() == segs.drop_last().flatten() + seg);
        lemma_strip_ws_add(segs.drop_last().flatten(), seg);
        lemma_strip_ws_add(f, st.current);
        let candidate = st.current + seg;
        if candidate.len() <= max {
            assert(f + candidate =~= (f + st.current) + seg);
            lemma_strip_ws_add(f + st.current, seg);
        } else {
            let finished = if st.current.len() > 0 {
                st.chunks.push(trim_end(st.current))
            } else {
                st.chunks
            };
            if st.current.len() > 0 {
                assert(finished.flatten() == f + trim_end(st.current));
                lemma_strip_ws_add(f, trim_end(st.current));
                lemma_strip_ws_trim(st.current);
            } else {
                assert(f + st.current =~= f);
            }
            if seg.len() <= max {
                lemma_strip_ws_add(finished.flatten(), seg);
            } else {
                let sc = segment_chunks(seg, max);
                lemma_segment_chunks_text(seg, max);
                lemma_flatten_concat(finished, sc);
                assert((finished + sc).flatten() + Seq::<char>::empty() =~= finished.flatten()
                    + sc.flatten());
                lemma_strip_ws_add(finished.flatten(), sc.flatten());
            }
        }
    }
}

/// Cutting a summary into chunks keeps its visible text: the characters of
/// the chunks that are not white space, read in order, are those of the
/// summary.
pub proof fn lemma_summary_chunks_text(s: Seq<char>, max: int)
    requires
        max > 0,
    ensures
        strip_ws(summary_chunks(s, max).flatten()) == strip_ws(s),
{
    broadcast use Seq::lemma_flatten_push;

    let cleaned = trim(normalized(s));
    lemma_normalized_keeps_text(s);
    lemma_strip_ws_trim(normalized(s));
    let one_empty: Seq<Seq<char>> = seq![Seq::<char>::empty()];
    one_empty.lemma_flatten_one_element();
    lemma_strip_ws_empty();
    if cleaned.len() > 0 {
        let src = chunk_source(s);
        if !cleaned.contains('\n') {
            lemma_sentence_breaks_keep_text(cleaned);
        }
        assert(strip_ws(src) == strip_ws(s));
        let ls = split_on(src, '\n');
        lemma_strip_ws_split(src, '\n');
        lemma_line_segments_text(ls);
        let segs = line_segments(ls);
        lemma_chunk_fold_text(segs, max);
        let st = chunk_fold(segs, max);
        let f = st.chunks.flatten();
        lemma_strip_ws_add(f, st.current);
        if st.current.len() > 0 {
            lemma_strip_ws_add(f, trim_end(st.current));
            lemma_strip_ws_trim(st.current);
        } else {
            assert(f + st.current =~= f);
            if st.chunks.len() == 0 {
                assert(st.chunks.flatten() =~= Seq::<char>::empty());
            }
        }
    }
}

/// Adds one segment to the chunking state.
fn add_segment(chunks: &mut Vec<Vec<char>>, current: &mut Vec<char>, seg: &[char], max: usize)
    requires
        max > 0,
    ensures
        (ChunkState { chunks: views(final(chunks)@), current: final(current)@ }) == chunk_step(
            ChunkState { chunks: views(old(chunks)@), current: old(current)@ },
            seg@,
            max as int,
        ),
{
    let mut candidate = copy_range(current.as_slice(), 0, current.len());
    push_all(&mut candidate, seg);
    assert(candidate@ =~= old(current)@ + seg@);
    if candidate.len() <= max {
        *current = candidate;
        return;
    }
    if current.len() > 0 {
        let done = trim_end_chars(current.as_slice());
        let ghost before = views(chunks@);
        chunks.push(done);
        assert(views(chunks@) =~= before.push(trim_end(old(current)@)));
        *current = Vec::new();
    }
    if seg.len() <= max {
        *current = copy_range(seg, 0, seg.len());
        assert(current@ =~= seg@);
    } else {
        let mut parts = split_segment_chars(seg, max);
        let ghost before = views(chunks@);
        let ghost added = views(parts@);
        chunks.append(&mut parts);
        assert(views(chunks@) =~= before + added);
        *current = Vec::new();
        assert(current@ =~= Seq::<char>::empty());
    }
}

proof fn lemma_line_segments_step(ls: Seq<Seq<char>>, k: int)
    requires
        1 <= k < ls.len(),
    ensures
        line_segments(ls.take(k + 1)) == line_segments(ls.take(k)).push(seq!['\n']).push(ls[k]),
{
    assert(ls.take(k + 1).drop_last() =~= ls.take(k));
}

proof fn lemma_chunk_fold_push2(segs: Seq<Seq<char>>, a: Seq<char>, b: Seq<char>, max: int)
    ensures
        chunk_fold(segs.push(a).push(b), max) == chunk_step(
            chunk_step(chunk_fold(segs, max), a, max),
            b,
            max,
        ),
{
    assert(segs.push(a).push(b).drop_last() =~= segs.push(a));
    assert(segs.push(a).drop_last() =~= segs);
    assert(chunk_fold(segs.push(a), max) == chunk_step(chunk_fold(segs, max), a, max));
    assert(chunk_fold(segs.push(a).push(b), max) == chunk_step(
        chunk_fold(segs.push(a), max),
        b,
        max,
    ));
}

/// A summary cut into chunks of at most `max` characters.
pub fn summary_chunk_chars(cs: &[char], max: usize) -> (res: Vec<Vec<char>>)
    requires
        max > 0 || trim(normalized(cs@)).len() == 0,
    ensures
        views(res@) == summary_chunks(cs@, max as int),
{
    let norm = normalize_newline_chars(cs);
    let cleaned = trim_chars(norm.as_slice());
    if cleaned.len() == 0 {
        let mut res: Vec<Vec<char>> = Vec::new();
        res.push(Vec::new());
        assert(views(res@) =~= seq![Seq::<char>::empty()]);
        return res;
    }
    let prepared = if has_char(cleaned.as_slice(), '\n') {
        cleaned
    } else {
        insert_sentence_line_break_chars(cleaned.as_slice())
    };
    assert(prepared@ == chunk_source(cs@));
    let ls = split_chars(prepared.as_slice(), '\n');
    proof {
        lemma_split_on_len(prepared@, '\n');
    }
    let mut chunks: Vec<Vec<char>> = Vec::new();
    let mut current: Vec<char> = Vec::new();
    let mut k: usize = 0;
    let nl = vec!['\n'];
    assert(nl@ =~= seq!['\n']);
    assert(views(ls@).take(0) =~= Seq::<Seq<char>>::empty());
    assert(views(chunks@) =~= Seq::<Seq<char>>::empty());
    while k < ls.len()
        invariant
            max > 0,
            k <= ls@.len(),
            nl@ == seq!['\n'],
            (ChunkState { chunks: views(chunks@), current: current@ }) == chunk_fold(
                line_segments(views(ls@).take(k as int)),
                max as int,
            ),
        decreases ls@.len() - k,
    {
        let ghost prev = chunk_fold(line_segments(views(ls@).take(k as int)), max as int);
        if k > 0 {
            add_segment(&mut chunks, &mut current, nl.as_slice(), max);
        }
        add_segment(&mut chunks, &mut current, ls[k].as_slice(), max);
        proof {
            if k == 0 {
                assert(views(ls@).take(1) =~= seq![ls@[0]@]);
                assert(seq![ls@[0]@].drop_last() =~= Seq::<Seq<char>>::empty());
                assert(line_segments(views(ls@).take(1)) == seq![ls@[0]@]);
                assert(chunk_fold(seq![ls@[0]@], max as int) == chunk_step(
                    chunk_fold(Seq::empty(), max as int),
                    ls@[0]@,
                    max as int,
                ));
            } else {
                assert(views(ls@)[k as int] == ls@[k as int]@);
                lemma_line_segments_step(views(ls@), k as int);
                lemma_chunk_fold_push2(
                    line_segments(views(ls@).take(k as int)),
                    seq!['\n'],
                    ls@[k as int]@,
                    max as int,
                );
            }
        }
        k = k + 1;
    }
    assert(views(ls@).take(ls@.len() as int) =~= views(ls@));
    if current.len() > 0 {
        let done = trim_end_chars(current.as_slice());
        let ghost before = views(chunks@);
        chunks.push(done);
        assert(views(chunks@) =~= before.push(trim_end(current@)));
    }
    if chunks.len() == 0 {
        chunks.push(Vec::new());
        assert(views(chunks@) =~= seq![Seq::<char>::empty()]);
    }
    chunks
}

/// `summary_text` cut into chunks of at most `max_len` characters.  A limit
/// of zero is accepted only for a blank summary, which gives one empty chunk
/// whatever the limit.
pub fn split_summary_into_chunks(summary_text: &str, max_len: usize) -> (res: Vec<String>)
    requires
        max_len > 0 || trim(normalized(summary_text@)).len() == 0,
    ensures
        res@.map_values(|s: String| s@) == summary_chunks(summary_text@, max_len as int),
{
    let cs = to_chars(summary_text);
    let parts = summary_chunk_chars(cs.as_slice(), max_len);
    strings_of(&parts)
}

// ---------------------------------------------------------------------------
// Discord messages
// ---------------------------------------------------------------------------

/// Room left in a message once `used` characters are taken, but at least one.
pub open spec fn available(used: int) -> int {
    if 2000 - used >= 1 {
        2000 - used
    } else {
        1
    }
}

/// The text before the summary in the first message: the title line, the
/// channel line and an empty line.
pub open spec fn message_prefix(title: Seq<char>, channel: Seq<char>) -> Seq<char> {
    title + seq!['\n'] + channel + seq!['\n', '\n']
}

/// The text after the summary in the last message: an empty line and the
/// video line.
pub open spec fn message_suffix(video: Seq<char>) -> Seq<char> {
    seq!['\n', '\n'] + video
}

/// The summary chunks placed in the messages.  The summary is cut at the
/// full message length; if that gives one chunk too long to share a message
/// with both the prefix and the suffix, it is cut again to leave room for the
/// prefix; the first chunk is cut further if it leaves no room for the
/// prefix, and the last (of several) if it leaves no room for the suffix.
pub open spec fn discord_chunks(prefix_len: int, suffix_len: int, summary: Seq<char>) -> Seq<
    Seq<char>,
> {
    let first_limit = available(prefix_len);
    let last_limit = available(suffix_len);
    let single_limit = available(prefix_len + suffix_len);
    let c0 = summary_chunks(summary, 2000);
    let c1 = if c0.len() == 1 && c0[0].len() > single_limit {
        summary_chunks(summary, first_limit)
    } else {
        c0
    };
    let c2 = if c1[0].len() > first_limit {
        summary_chunks(c1[0], first_limit) + c1.drop_first()
    } else {
        c1
    };
    if c2.len() > 1 && c2.last().len() > last_limit {
        c2.drop_last() + summary_chunks(c2.last(), last_limit)
    } else {
        c2
    }
}

/// The Discord messages for a summary: the prefix before the first chunk,
/// the suffix after the last, and the chunks in between on their own.
pub open spec fn discord_messages(
    title: Seq<char>,
    channel: Seq<char>,
    video: Seq<char>,
    summary: Seq<char>,
) -> Seq<Seq<char>> {
    let prefix = message_prefix(title, channel);
    let suffix = message_suffix(video);
    let c = discord_chunks(prefix.len() as int, suffix.len() as int, summary);
    if c.len() == 1 {
        seq![prefix + c[0] + suffix]
    } else {
        seq![prefix + c[0]] + c.subrange(1, c.len() - 1) + seq![c.last() + suffix]
    }
}

/// Room left in a message once `used` characters are taken, but at least one.
fn available_room(used: usize) -> (res: usize)
    ensures
        res == available(used as int),
        res >= 1,
{
    let r = DISCORD_MAX_MESSAGE_LENGTH.saturating_sub(used);
    if r < 1 {
        1
    } else {
        r
    }
}

/// The chunk list with its first element replaced by the chunks of that
/// element cut at `limit`.
fn resplit_first(chunks: Vec<Vec<char>>, limit: usize) -> (res: Vec<Vec<char>>)
    requires
        limit > 0,
        chunks@.len() >= 1,
    ensures
        views(res@) == summary_chunks(views(chunks@)[0], limit as int) + views(
            chunks@,
        ).drop_first(),
{
    let mut res = summary_chunk_chars(chunks[0].as_slice(), limit);
    let mut k: usize = 1;
    let ghost head = views(res@);
    while k < chunks.len()
        invariant
            1 <= k <= chunks@.len(),
            views(res@) == head + views(chunks@).subrange(1, k as int),
        decreases chunks@.len() - k,
    {
        let c = copy_range(chunks[k].as_slice(), 0, chunks[k].len());
        assert(c@ =~= chunks@[k as int]@);
        let ghost before = views(res@);
        res.push(c);
        assert(views(res@) =~= before.push(c@));
        assert(views(chunks@).subrange(1, k + 1) =~= views(chunks@).subrange(1, k as int).push(
            c@,
        ));
        k = k + 1;
    }
    assert(views(chunks@).subrange(1, chunks@.len() as int) =~= views(chunks@).drop_first());
    res
}

/// The chunk list with its last element replaced by the chunks of that
/// element cut at `limit`.
fn resplit_last(chunks: Vec<Vec<char>>, limit: usize) -> (res: Vec<Vec<char>>)
    requires
        limit > 0,
        chunks@.len() >= 1,
    ensures
        views(res@) == views(chunks@).drop_last() + summary_chunks(
            views(chunks@).last(),
            limit as int,
        ),
{
    let n = chunks.len();
    let tail = summary_chunk_chars(chunks[n - 1].as_slice(), limit);
    let mut res: Vec<Vec<char>> = Vec::new();
    let mut k: usize = 0;
    assert(views(res@) =~= views(chunks@).take(0));
    while k + 1 < n
        invariant
            n == chunks@.len(),
            k < n,
            views(res@) == views(chunks@).take(k as int),
        decreases n - k,
    {
        let c = copy_range(chunks[k].as_slice(), 0, chunks[k].len());
        assert(c@ =~= chunks@[k as int]@);
        let ghost before = views(res@);
        res.push(c);
        assert(views(res@) =~= before.push(c@));
        assert(views(chunks@).take(k + 1) =~= views(chunks@).take(k as int).push(c@));
        k = k + 1;
    }
    assert(views(chunks@).take(n - 1) =~= views(chunks@).drop_last());
    let mut t = tail;
    let ghost before = views(res@);
    let ghost added = views(t@);
    res.append(&mut t);
    assert(views(res@) =~= before + added);
    res
}

/// The Discord messages for a summary, each chunk of the summary in a
/// message of its own, the title and channel lines before the first chunk
/// and the video line after the last.
pub fn build_discord_messages(
    title_line: &str,
    channel_text_line: &str,
    video_line: &str,
    summary_text: &str,
) -> (res: Vec<String>)
    ensures
        res@.map_values(|s: String| s@) == discord_messages(
            title_line@,
            channel_text_line@,
            video_line@,
            summary_text@,
        ),
{
    let title = to_chars(title_line);
    let channel = to_chars(channel_text_line);
    let video = to_chars(video_line);
    let summary = to_chars(summary_text);
    let mut prefix: Vec<char> = Vec::new();
    push_all(&mut prefix, title.as_slice());
    prefix.push('\n');
    push_all(&mut prefix, channel.as_slice());
    prefix.push('\n');
    prefix.push('\n');
    assert(prefix@ =~= message_prefix(title_line@, channel_text_line@));
    let mut suffix: Vec<char> = vec!['\n', '\n'];
    push_all(&mut suffix, video.as_slice());
    assert(suffix@ =~= message_suffix(video_line@));
    let first_limit = available_room(prefix.len());
    let middle_limit = DISCORD_MAX_MESSAGE_LENGTH;
    let last_limit = available_room(suffix.len());
    let single_limit = available_room(prefix.len().saturating_add(suffix.len()));
    assert(single_limit == available((prefix@.len() + suffix@.len()) as int));
    let mut chunks = summary_chunk_chars(summary.as_slice(), middle_limit);
    proof {
        lemma_summary_chunks_within(summary@, 2000);
        lemma_summary_chunks_within(summary@, first_limit as int);
    }
    if chunks.len() == 1 && chunks[0].len() > single_limit {
        chunks = summary_chunk_chars(summary.as_slice(), first_limit);
    }
    if chunks[0].len() > first_limit {
        chunks = resplit_first(chunks, first_limit);
        proof {
            lemma_summary_chunks_within(views(chunks@)[0], first_limit as int);
        }
    }
    assert(chunks@.len() >= 1);
    if chunks.len() > 1 && chunks[chunks.len() - 1].len() > last_limit {
        chunks = resplit_last(chunks, last_limit);
    }
    assert(views(chunks@) == discord_chunks(prefix@.len() as int, suffix@.len() as int, summary@));
    let n = chunks.len();
    let mut messages: Vec<Vec<char>> = Vec::new();
    if n == 1 {
        let mut m = copy_range(prefix.as_slice(), 0, prefix.len());
        push_all(&mut m, chunks[0].as_slice());
        push_all(&mut m, suffix.as_slice());
        assert(m@ =~= prefix@ + views(chunks@)[0] + suffix@);
        let ghost mv = m@;
        messages.push(m);
        assert(views(messages@) =~= seq![mv]);
        assert(views(messages@) =~= discord_messages(
            title_line@,
            channel_text_line@,
            video_line@,
            summary_text@,
        ));
        return strings_of(&messages);
    }
    let mut first = copy_range(prefix.as_slice(), 0, prefix.len());
    push_all(&mut first, chunks[0].as_slice());
    assert(first@ =~= prefix@ + views(chunks@)[0]);
    let ghost fv = first@;
    messages.push(first);
    assert(views(messages@) =~= seq![fv]);
    let mut k: usize = 1;
    let ghost c = views(chunks@);
    let ghost p = prefix@;
    assert(views(messages@) =~= seq![p + c[0]] + c.subrange(1, 1));
    while k + 1 < n
        invariant
            n == chunks@.len() >= 2,
            c == views(chunks@),
            1 <= k < n,
            views(messages@) == seq![p + c[0]] + c.subrange(1, k as int),
        decreases n - k,
    {
        let m = copy_range(chunks[k].as_slice(), 0, chunks[k].len());
        assert(m@ =~= c[k as int]);
        let ghost before = views(messages@);
        messages.push(m);
        assert(views(messages@) =~= before.push(c[k as int]));
        assert(c.subrange(1, k + 1) =~= c.subrange(1, k as int).push(c[k as int]));
        k = k + 1;
    }
    let mut last = copy_range(chunks[n - 1].as_slice(), 0, chunks[n - 1].len());
    push_all(&mut last, suffix.as_slice());
    assert(last@ =~= c.last() + suffix@);
    let ghost before = views(messages@);
    let ghost l = last@;
    messages.push(last);
    assert(views(messages@) =~= before.push(l));
    assert(views(messages@) =~= discord_messages(
        title_line@,
        channel_text_line@,
        video_line@,
        summary_text@,
    ));
    strings_of(&messages)
}

proof fn lemma_all_within_concat(a: Seq<Seq<char>>, b: Seq<Seq<char>>, max: int)
    requires
        all_within(a, max),
        all_within(b, max),
    ensures
        all_within(a + b, max),
{
    assert forall|i: int| 0 <= i < (a + b).len() implies #[trigger] (a + b)[i].len() <= max by {
        if i < a.len() {
            assert((a + b)[i] == a[i]);
        } else {
            assert((a + b)[i] == b[i - a.len()]);
        }
    }
}

proof fn lemma_all_within_weaken(a: Seq<Seq<char>>, small: int, max: int)
    requires
        all_within(a, small),
        small <= max,
    ensures
        all_within(a, max),
{
}

/// There is always at least one chunk to place in messages.
pub proof fn lemma_discord_chunks_nonempty(prefix_len: int, suffix_len: int, summary: Seq<char>)
    ensures
        discord_chunks(prefix_len, suffix_len, summary).len() >= 1,
{
    let first_limit = available(prefix_len);
    let last_limit = available(suffix_len);
    lemma_summary_chunks_within(summary, 2000);
    lemma_summary_chunks_within(summary, first_limit);
    let c0 = summary_chunks(summary, 2000);
    let c1 = if c0.len() == 1 && c0[0].len() > available(prefix_len + suffix_len) {
        summary_chunks(summary, first_limit)
    } else {
        c0
    };
    lemma_summary_chunks_within(c1[0], first_limit);
    let c2 = if c1[0].len() > first_limit {
        summary_chunks(c1[0], first_limit) + c1.drop_first()
    } else {
        c1
    };
    if c2.len() > 1 {
        lemma_summary_chunks_within(c2.last(), last_limit);
    }
}

/// The chunks placed in messages: at least one, none longer than a message,
/// the first leaves room for the prefix and, when there are several, the last
/// leaves room for the suffix.
pub proof fn lemma_discord_chunks(prefix_len: int, suffix_len: int, summary: Seq<char>)
    requires
        0 <= prefix_len < 2000,
        0 <= suffix_len < 2000,
    ensures
        discord_chunks(prefix_len, suffix_len, summary).len() >= 1,
        all_within(discord_chunks(prefix_len, suffix_len, summary), 2000),
        discord_chunks(prefix_len, suffix_len, summary)[0].len() + prefix_len <= 2000,
        discord_chunks(prefix_len, suffix_len, summary).len() > 1 ==> discord_chunks(
            prefix_len,
            suffix_len,
            summary,
        ).last().len() + suffix_len <= 2000,
{
    let first_limit = available(prefix_len);
    let last_limit = available(suffix_len);
    let single_limit = available(prefix_len + suffix_len);
    let c0 = summary_chunks(summary, 2000);
    lemma_summary_chunks_within(summary, 2000);
    lemma_summary_chunks_within(summary, first_limit);
    let c1 = if c0.len() == 1 && c0[0].len() > single_limit {
        summary_chunks(summary, first_limit)
    } else {
        c0
    };
    assert(c1.len() >= 1 && all_within(c1, 2000));
    let c2 = if c1[0].len() > first_limit {
        summary_chunks(c1[0], first_limit) + c1.drop_first()
    } else {
        c1
    };
    if c1[0].len() > first_limit {
        let head = summary_chunks(c1[0], first_limit);
        lemma_summary_chunks_within(c1[0], first_limit);
        assert(all_within(c1.drop_first(), 2000)) by {
            assert forall|i: int| 0 <= i < c1.drop_first().len() implies #[trigger] c1.drop_first()[i].len()
                <= 2000 by {
                assert(c1.drop_first()[i] == c1[i + 1]);
            }
        }
        lemma_all_within_concat(head, c1.drop_first(), 2000);
        assert(c2[0] == head[0]);
    }
    assert(c2.len() >= 1 && all_within(c2, 2000) && c2[0].len() <= first_limit);
    if c2.len() > 1 && c2.last().len() > last_limit {
        let tail = summary_chunks(c2.last(), last_limit);
        lemma_summary_chunks_within(c2.last(), last_limit);
        assert(all_within(c2.drop_last(), 2000)) by {
            assert forall|i: int| 0 <= i < c2.drop_last().len() implies #[trigger] c2.drop_last()[i].len()
                <= 2000 by {
                assert(c2.drop_last()[i] == c2[i]);
            }
        }
        lemma_all_within_concat(c2.drop_last(), tail, 2000);
        let c3 = c2.drop_last() + tail;
        assert(c3[0] == c2[0]);
        assert(c3.last() == tail.last());
    }
}

/// When a summary takes several messages, every message fits Discord's
/// length limit, provided the title-and-channel prefix and the video suffix
/// each leave room for text.
pub proof fn lemma_discord_messages_fit(
    title: Seq<char>,
    channel: Seq<char>,
    video: Seq<char>,
    summary: Seq<char>,
)
    requires
        message_prefix(title, channel).len() < 2000,
        message_suffix(video).len() < 2000,
    ensures
        discord_messages(title, channel, video, summary).len() >= 1,
        discord_messages(title, channel, video, summary).len() >= 2 ==> all_within(
            discord_messages(title, channel, video, summary),
            2000,
        ),
{
    let prefix = message_prefix(title, channel);
    let suffix = message_suffix(video);
    let c = discord_chunks(prefix.len() as int, suffix.len() as int, summary);
    lemma_discord_chunks(prefix.len() as int, suffix.len() as int, summary);
    if c.len() > 1 {
        let m = discord_messages(title, channel, video, summary);
        assert(m == seq![prefix + c[0]] + c.subrange(1, c.len() - 1) + seq![c.last() + suffix]);
        assert forall|i: int| 0 <= i < m.len() implies #[trigger] m[i].len() <= 2000 by {
            if i == 0 {
                assert(m[i] == prefix + c[0]);
            } else if i == m.len() - 1 {
                assert(m[i] == c.last() + suffix);
            } else {
                assert(m[i] == c[i]);
            }
        }
    }
}

/// A summary that, cut at the full message length, is a single chunk short
/// enough to share a message with the prefix and the suffix is sent as that
/// one message, and the message fits Discord's length limit.
pub proof fn lemma_discord_single_message_fits(
    title: Seq<char>,
    channel: Seq<char>,
    video: Seq<char>,
    summary: Seq<char>,
)
    requires
        summary_chunks(summary, 2000).len() == 1,
        summary_chunks(summary, 2000)[0].len() + message_prefix(title, channel).len()
            + message_suffix(video).len() <= 2000,
    ensures
        discord_messages(title, channel, video, summary) == seq![
            message_prefix(title, channel) + summary_chunks(summary, 2000)[0] + message_suffix(
                video,
            ),
        ],
        all_within(discord_messages(title, channel, video, summary), 2000),
{
    let prefix = message_prefix(title, channel);
    let suffix = message_suffix(video);
    let c = discord_chunks(prefix.len() as int, suffix.len() as int, summary);
    assert(c == summary_chunks(summary, 2000));
    let m = discord_messages(title, channel, video, summary);
    assert(m[0].len() <= 2000);
}

/// A summary sent as one message is the prefix, its only chunk and the
/// suffix, so that message fits exactly when the chunk, the prefix and the
/// suffix together do.
pub proof fn lemma_discord_single_message_length(
    title: Seq<char>,
    channel: Seq<char>,
    video: Seq<char>,
    summary: Seq<char>,
)
    requires
        discord_messages(title, channel, video, summary).len() == 1,
    ensures
        ({
            let c = discord_chunks(
                message_prefix(title, channel).len() as int,
                message_suffix(video).len() as int,
                summary,
            );
            let m = discord_messages(title, channel, video, summary);
            &&& c.len() == 1
            &&& m[0] == message_prefix(title, channel) + c[0] + message_suffix(video)
            &&& (all_within(m, 2000) <==> c[0].len() + message_prefix(title, channel).len()
                + message_suffix(video).len() <= 2000)
        }),
{
    let prefix = message_prefix(title, channel);
    let suffix = message_suffix(video);
    let c = discord_chunks(prefix.len() as int, suffix.len() as int, summary);
    lemma_discord_chunks_nonempty(prefix.len() as int, suffix.len() as int, summary);
    let m = discord_messages(title, channel, video, summary);
    if c.len() > 1 {
        assert(m.len() == 1 + (c.len() - 2) + 1);
    }
    assert(all_within(m, 2000) ==> m[0].len() <= 2000);
}

proof fn lemma_flatten_three(a: Seq<Seq<char>>, b: Seq<Seq<char>>, c: Seq<Seq<char>>)
    ensures
        (a + b + c).flatten() == a.flatten() + b.flatten() + c.flatten(),
{
    lemma_flatten_concat(a + b, c);
    lemma_flatten_concat(a, b);
}

/// Placing a summary in messages keeps its visible text.
pub proof fn lemma_discord_chunks_text(prefix_len: int, suffix_len: int, summary: Seq<char>)
    ensures
        strip_ws(discord_chunks(prefix_len, suffix_len, summary).flatten()) == strip_ws(summary),
{
    let first_limit = available(prefix_len);
    let last_limit = available(suffix_len);
    let single_limit = available(prefix_len + suffix_len);
    let c0 = summary_chunks(summary, 2000);
    lemma_summary_chunks_text(summary, 2000);
    lemma_summary_chunks_text(summary, first_limit);
    lemma_summary_chunks_within(summary, 2000);
    lemma_summary_chunks_within(summary, first_limit);
    let c1 = if c0.len() == 1 && c0[0].len() > single_limit {
        summary_chunks(summary, first_limit)
    } else {
        c0
    };
    assert(strip_ws(c1.flatten()) == strip_ws(summary));
    let c2 = if c1[0].len() > first_limit {
        summary_chunks(c1[0], first_limit) + c1.drop_first()
    } else {
        c1
    };
    if c1[0].len() > first_limit {
        let head = summary_chunks(c1[0], first_limit);
        lemma_summary_chunks_text(c1[0], first_limit);
        lemma_flatten_concat(head, c1.drop_first());
        lemma_strip_ws_add(head.flatten(), c1.drop_first().flatten());
        assert(c1.flatten() == c1[0] + c1.drop_first().flatten());
        lemma_strip_ws_add(c1[0], c1.drop_first().flatten());
    }
    assert(strip_ws(c2.flatten()) == strip_ws(summary));
    lemma_summary_chunks_within(c1[0], first_limit);
    if c2.len() > 1 && c2.last().len() > last_limit {
        let tail = summary_chunks(c2.last(), last_limit);
        lemma_summary_chunks_text(c2.last(), last_limit);
        lemma_flatten_concat(c2.drop_last(), tail);
        lemma_strip_ws_add(c2.drop_last().flatten(), tail.flatten());
        assert(c2 =~= c2.drop_last().push(c2.last()));
        c2.drop_last().lemma_flatten_push(c2.last());
        lemma_strip_ws_add(c2.drop_last().flatten(), c2.last());
    }
}

/// The messages for a summary, read one after the other, are the prefix,
/// the placed chunks and the suffix.
proof fn lemma_discord_messages_flatten(
    title: Seq<char>,
    channel: Seq<char>,
    video: Seq<char>,
    summary: Seq<char>,
)
    ensures
        discord_messages(title, channel, video, summary).flatten() == message_prefix(
            title,
            channel,
        ) + discord_chunks(
            message_prefix(title, channel).len() as int,
            message_suffix(video).len() as int,
            summary,
        ).flatten() + message_suffix(video),
{
    let prefix = message_prefix(title, channel);
    let suffix = message_suffix(video);
    let c = discord_chunks(prefix.len() as int, suffix.len() as int, summary);
    lemma_discord_chunks_nonempty(prefix.len() as int, suffix.len() as int, summary);
    let m = discord_messages(title, channel, video, summary);
    if c.len() == 1 {
        seq![prefix + c[0] + suffix].lemma_flatten_one_element();
        c.lemma_flatten_one_element();
    } else {
        let mid = c.subrange(1, c.len() - 1);
        lemma_flatten_three(seq![prefix + c[0]], mid, seq![c.last() + suffix]);
        seq![prefix + c[0]].lemma_flatten_one_element();
        seq![c.last() + suffix].lemma_flatten_one_element();
        assert(c =~= seq![c[0]] + mid + seq![c.last()]);
        lemma_flatten_three(seq![c[0]], mid, seq![c.last()]);
        seq![c[0]].lemma_flatten_one_element();
        seq![c.last()].lemma_flatten_one_element();
        assert(m.flatten() =~= prefix + c.flatten() + suffix);
    }
}

/// The messages for a summary keep the visible text of the title, the
/// channel, the summary and the video line, in that order: only white space
/// is added, dropped or moved.
pub proof fn lemma_discord_messages_text(
    title: Seq<char>,
    channel: Seq<char>,
    video: Seq<char>,
    summary: Seq<char>,
)
    ensures
        strip_ws(discord_messages(title, channel, video, summary).flatten()) == strip_ws(
            title + channel + summary + video,
        ),
{
    let prefix = message_prefix(title, channel);
    let suffix = message_suffix(video);
    let c = discord_chunks(prefix.len() as int, suffix.len() as int, summary);
    lemma_discord_messages_flatten(title, channel, video, summary);
    lemma_discord_chunks_text(prefix.len() as int, suffix.len() as int, summary);
    let nl: Seq<char> = seq!['\n'];
    let nl2: Seq<char> = seq!['\n', '\n'];
    lemma_strip_ws_char('\n');
    assert(nl2 =~= nl + nl);
    lemma_strip_ws_add(nl, nl);
    assert(prefix =~= title + nl + channel + nl2);
    lemma_strip_ws_add(title + nl + channel, nl2);
    lemma_strip_ws_add(title + nl, channel);
    lemma_strip_ws_add(title, nl);
    lemma_strip_ws_add(nl2, video);
    lemma_strip_ws_add(prefix + c.flatten(), suffix);
    lemma_strip_ws_add(prefix, c.flatten());
    lemma_strip_ws_add(title + channel + summary, video);
    lemma_strip_ws_add(title + channel, summary);
    lemma_strip_ws_add(title, channel);
    let e = Seq::<char>::empty();
    assert(strip_ws(title) + e =~= strip_ws(title));
    assert(e + e =~= e);
    assert(e + strip_ws(video) =~= strip_ws(video));
}

/// The first message begins with the title-and-channel prefix and the last
/// ends with the video suffix.
pub proof fn lemma_discord_messages_frame(
    title: Seq<char>,
    channel: Seq<char>,
    video: Seq<char>,
    summary: Seq<char>,
)
    ensures
        ({
            let m = discord_messages(title, channel, video, summary);
            let prefix = message_prefix(title, channel);
            let suffix = message_suffix(video);
            &&& m.len() >= 1
            &&& m[0].take(prefix.len() as int) == prefix
            &&& m.last().skip(m.last().len() - suffix.len()) == suffix
        }),
{
    let prefix = message_prefix(title, channel);
    let suffix = message_suffix(video);
    let c = discord_chunks(prefix.len() as int, suffix.len() as int, summary);
    lemma_discord_chunks_nonempty(prefix.len() as int, suffix.len() as int, summary);
    let m = discord_messages(title, channel, video, summary);
    if c.len() == 1 {
        assert((prefix + c[0] + suffix).take(prefix.len() as int) =~= prefix);
        assert((prefix + c[0] + suffix).skip((prefix + c[0] + suffix).len() - suffix.len())
            =~= suffix);
    } else {
        assert(m[0] == prefix + c[0]);
        assert(m.last() == c.last() + suffix);
        assert((prefix + c[0]).take(prefix.len() as int) =~= prefix);
        assert((c.last() + suffix).skip((c.last() + suffix).len() - suffix.len()) =~= suffix);
    }
}

} // verus!
