//! Plain-text clean-up of model output: character counting and truncation,
//! line-ending normalisation, removal of `<think>` blocks, and sentence
//! line breaks.
use vstd::prelude::*;
use vstd::string::StrSliceExecFns;
use vstd::utf8::encode_utf8;
use vstd::slice::slice_subrange;

use crate::chars::{
    lemma_strip_ws_add, lemma_strip_ws_char, strip_ws, copy_range, find, find_chars, from_chars, lemma_find_from, occurs_at, push_all, str_views,
    to_chars, views,
};

verus! {

// ---------------------------------------------------------------------------
// Counting and truncating characters
// ---------------------------------------------------------------------------

/// The first `n` characters of `s` (all of `s` if it is shorter).
pub open spec fn take_upto(s: Seq<char>, n: int) -> Seq<char> {
    if n < s.len() {
        s.take(n)
    } else {
        s
    }
}

/// `s` without its first `n` characters (empty if it is shorter).
pub open spec fn skip_upto(s: Seq<char>, n: int) -> Seq<char> {
    if n < s.len() {
        s.skip(n)
    } else {
        Seq::empty()
    }
}

/// The three dots that mark a shortened text.
pub open spec fn ellipsis() -> Seq<char> {
    seq!['.', '.', '.']
}

/// `s` cut to at most `max` characters; a cut text ends with `...` when
/// there is room for it.
pub open spec fn limited(s: Seq<char>, max: int) -> Seq<char> {
    if s.len() <= max {
        s
    } else if max <= 3 {
        s.take(max)
    } else {
        s.take(max - 3) + ellipsis()
    }
}

/// The number of characters in `text`.
pub fn char_len(text: &str) -> (res: usize)
    ensures
        res == text@.len(),
{
    to_chars(text).len()
}

/// The first `max_chars` characters of `text`.
pub fn take_chars(text: &str, max_chars: usize) -> (res: String)
    ensures
        res@ == take_upto(text@, max_chars as int),
{
    let cs = to_chars(text);
    let n = if max_chars < cs.len() {
        max_chars
    } else {
        cs.len()
    };
    let part = copy_range(cs.as_slice(), 0, n);
    assert(cs@.subrange(0, n as int) =~= take_upto(text@, max_chars as int));
    from_chars(part.as_slice())
}

/// `text` without its first `chars_to_skip` characters.
pub fn skip_chars(text: &str, chars_to_skip: usize) -> (res: String)
    ensures
        res@ == skip_upto(text@, chars_to_skip as int),
{
    let cs = to_chars(text);
    let n = if chars_to_skip < cs.len() {
        chars_to_skip
    } else {
        cs.len()
    };
    let part = copy_range(cs.as_slice(), n, cs.len());
    assert(cs@.subrange(n as int, cs@.len() as int) =~= skip_upto(text@, chars_to_skip as int));
    from_chars(part.as_slice())
}

/// `cs` cut to at most `max` characters.
pub fn limit_char_vec(cs: &[char], max: usize) -> (res: Vec<char>)
    ensures
        res@ == limited(cs@, max as int),
{
    if cs.len() <= max {
        return copy_range(cs, 0, cs.len());
    }
    if max <= 3 {
        return copy_range(cs, 0, max);
    }
    let mut res = copy_range(cs, 0, max - 3);
    res.push('.');
    res.push('.');
    res.push('.');
    assert(res@ =~= limited(cs@, max as int));
    res
}

/// `text` cut to at most `max_chars` characters, ending in `...` when it was
/// cut and `max_chars` leaves room for the dots.
pub fn limit_chars(text: &str, max_chars: usize) -> (res: String)
    ensures
        res@ == limited(text@, max_chars as int),
{
    let cs = to_chars(text);
    let r = limit_char_vec(cs.as_slice(), max_chars);
    from_chars(r.as_slice())
}

/// A limited text is never longer than the limit, and a text that fits is
/// left as it is.
pub proof fn lemma_limited(s: Seq<char>, max: int)
    requires
        0 <= max,
    ensures
        limited(s, max).len() <= max,
        s.len() <= max ==> limited(s, max) == s,
        s.len() > max && max > 3 ==> limited(s, max).len() == max && limited(s, max).take(
            max - 3,
        ) == s.take(max - 3),
{
    if s.len() > max && max > 3 {
        assert((s.take(max - 3) + ellipsis()).take(max - 3) =~= s.take(max - 3));
    }
}

// ---------------------------------------------------------------------------
// Line endings
// ---------------------------------------------------------------------------

/// `\r\n` and lone `\r` both turned into `\n`.
pub open spec fn normalized(s: Seq<char>) -> Seq<char>
    decreases s.len(),
{
    if s.len() == 0 {
        s
    } else if s[0] == '\r' {
        if s.len() > 1 && s[1] == '\n' {
            seq!['\n'] + normalized(s.skip(2))
        } else {
            seq!['\n'] + normalized(s.skip(1))
        }
    } else {
        seq![s[0]] + normalized(s.skip(1))
    }
}

/// `cs` with `\r\n` and lone `\r` turned into `\n`.
pub fn normalize_newline_chars(cs: &[char]) -> (res: Vec<char>)
    ensures
        res@ == normalized(cs@),
{
    let n = cs.len();
    let mut out: Vec<char> = Vec::new();
    let mut i: usize = 0;
    assert(cs@.skip(0) =~= cs@);
    while i < n
        invariant
            i <= n == cs@.len(),
            out@ + normalized(cs@.skip(i as int)) == normalized(cs@),
        decreases n - i,
    {
        let ghost rest = cs@.skip(i as int);
        if cs[i] == '\r' {
            if i + 1 < n && cs[i + 1] == '\n' {
                out.push('\n');
                assert(rest.skip(2) =~= cs@.skip(i + 2));
                assert(out@ + normalized(cs@.skip(i + 2)) =~= normalized(cs@));
                i = i + 2;
            } else {
                out.push('\n');
                assert(rest.skip(1) =~= cs@.skip(i + 1));
                assert(out@ + normalized(cs@.skip(i + 1)) =~= normalized(cs@));
                i = i + 1;
            }
        } else {
            out.push(cs[i]);
            assert(rest.skip(1) =~= cs@.skip(i + 1));
            assert(out@ + normalized(cs@.skip(i + 1)) =~= normalized(cs@));
            i = i + 1;
        }
    }
    assert(cs@.skip(n as int) =~= Seq::<char>::empty());
    assert(out@ =~= normalized(cs@));
    out
}

/// `text` with `\r\n` and lone `\r` turned into `\n`.
pub fn normalize_newlines(text: &str) -> (res: String)
    ensures
        res@ == normalized(text@),
{
    let cs = to_chars(text);
    let r = normalize_newline_chars(cs.as_slice());
    from_chars(r.as_slice())
}

/// A normalised text holds no carriage return.
pub proof fn lemma_normalized_no_cr(s: Seq<char>)
    ensures
        !normalized(s).contains('\r'),
        normalized(normalized(s)) == normalized(s),
    decreases s.len(),
{
    if s.len() == 0 {
    } else if s[0] == '\r' {
        if s.len() > 1 && s[1] == '\n' {
            lemma_normalized_no_cr(s.skip(2));
            lemma_normalized_cons('\n', normalized(s.skip(2)));
        } else {
            lemma_normalized_no_cr(s.skip(1));
            lemma_normalized_cons('\n', normalized(s.skip(1)));
        }
    } else {
        lemma_normalized_no_cr(s.skip(1));
        lemma_normalized_cons(s[0], normalized(s.skip(1)));
    }
}

/// Normalising line endings keeps the characters that are not white space.
pub proof fn lemma_normalized_keeps_text(s: Seq<char>)
    ensures
        strip_ws(normalized(s)) == strip_ws(s),
    decreases s.len(),
{
    if s.len() > 0 {
        let n = if s[0] == '\r' && s.len() > 1 && s[1] == '\n' {
            2int
        } else {
            1int
        };
        lemma_normalized_keeps_text(s.skip(n));
        let head = if s[0] == '\r' {
            seq!['\n']
        } else {
            seq![s[0]]
        };
        assert(normalized(s) == head + normalized(s.skip(n)));
        lemma_strip_ws_add(head, normalized(s.skip(n)));
        lemma_strip_ws_char(s[0]);
        lemma_strip_ws_char('\n');
        if n == 2 {
            assert(s =~= seq![s[0]] + seq![s[1]] + s.skip(2));
            lemma_strip_ws_add(seq![s[0]] + seq![s[1]], s.skip(2));
            lemma_strip_ws_add(seq![s[0]], seq![s[1]]);
            lemma_strip_ws_char(s[1]);
            assert(Seq::<char>::empty() + Seq::<char>::empty() =~= Seq::<char>::empty());
        } else {
            assert(s =~= seq![s[0]] + s.skip(1));
            lemma_strip_ws_add(seq![s[0]], s.skip(1));
        }
    }
}

proof fn lemma_normalized_cons(c: char, t: Seq<char>)
    requires
        c != '\r',
        !t.contains('\r'),
        normalized(t) == t,
    ensures
        normalized(seq![c] + t) == seq![c] + t,
        !(seq![c] + t).contains('\r'),
{
    let u = seq![c] + t;
    assert(u.skip(1) =~= t);
    assert(u[0] == c);
    if u.contains('\r') {
        let j = choose|j: int| 0 <= j < u.len() && u[j] == '\r';
        assert(t[j - 1] == '\r');
    }
}

// ---------------------------------------------------------------------------
// Finding the first of several tags
// ---------------------------------------------------------------------------

/// The position part of a (position, length) pair.
pub open spec fn tag_pos(p: (int, int)) -> int {
    p.0
}

/// The length part of a (position, length) pair.
pub open spec fn tag_len(p: (int, int)) -> int {
    p.1
}

/// The earliest position at which one of `tags` occurs in `s`, with the
/// length of that tag; where two tags start at the same position, the one
/// listed first.
pub open spec fn first_tag(s: Seq<char>, tags: Seq<Seq<char>>) -> Option<(int, int)>
    decreases tags.len(),
{
    if tags.len() == 0 {
        None
    } else {
        let best = first_tag(s, tags.drop_last());
        match find(s, tags.last()) {
            None => best,
            Some(i) => if best is Some && tag_pos(best->0) <= i {
                best
            } else {
                Some((i, tags.last().len() as int))
            },
        }
    }
}

/// What `first_tag` finds is an occurrence of one of the tags, and no tag
/// occurs earlier.
pub proof fn lemma_first_tag(s: Seq<char>, tags: Seq<Seq<char>>)
    ensures
        first_tag(s, tags) is Some ==> exists|k: int|
            0 <= k < tags.len() && tag_len(first_tag(s, tags)->0) == tags[k].len()
                && #[trigger] occurs_at(s, tags[k], tag_pos(first_tag(s, tags)->0)),
        first_tag(s, tags) is Some ==> forall|k: int, j: int|
            0 <= k < tags.len() && 0 <= j < tag_pos(first_tag(s, tags)->0) ==> !(#[trigger] occurs_at(
                s,
                tags[k],
                j,
            )),
        first_tag(s, tags) is None ==> forall|k: int, j: int|
            0 <= k < tags.len() && 0 <= j ==> !(#[trigger] occurs_at(s, tags[k], j)),
    decreases tags.len(),
{
    if tags.len() > 0 {
        let rest = tags.drop_last();
        lemma_first_tag(s, rest);
        lemma_find_from(s, tags.last(), 0);
        let best = first_tag(s, rest);
        match find(s, tags.last()) {
            None => {
                if let Some((i, l)) = best {
                    let k = choose|k: int|
                        0 <= k < rest.len() && l == rest[k].len() && #[trigger] occurs_at(
                            s,
                            rest[k],
                            i,
                        );
                    assert(tags[k] == rest[k]);
                    assert(occurs_at(s, tags[k], i));
                    assert(first_tag(s, tags) == Some((i, l)));
                }
                assert forall|k: int, j: int|
                    0 <= k < tags.len() && 0 <= j && (best is None || j < tag_pos(best->0))
                    implies !(#[trigger] occurs_at(s, tags[k], j)) by {
                    if k < rest.len() {
                        assert(tags[k] == rest[k]);
                    }
                }
            },
            Some(i) => {
                if best is Some && tag_pos(best->0) <= i {
                    let (bi, l) = best->0;
                    let k = choose|k: int|
                        0 <= k < rest.len() && l == rest[k].len() && #[trigger] occurs_at(
                            s,
                            rest[k],
                            bi,
                        );
                    assert(tags[k] == rest[k]);
                    assert(occurs_at(s, tags[k], bi));
                    assert(first_tag(s, tags) == Some((bi, l)));
                    assert forall|k: int, j: int|
                        0 <= k < tags.len() && 0 <= j < bi
                        implies !(#[trigger] occurs_at(s, tags[k], j)) by {
                        if k < rest.len() {
                            assert(tags[k] == rest[k]);
                        }
                    }
                } else {
                    let kk = tags.len() - 1;
                    assert(tag_pos(first_tag(s, tags)->0) == i);
                    assert(tag_len(first_tag(s, tags)->0) == tags[kk].len());
                    assert(occurs_at(s, tags[kk], tag_pos(first_tag(s, tags)->0)));
                    assert forall|k: int, j: int|
                        0 <= k < tags.len() && 0 <= j < i
                        implies !(#[trigger] occurs_at(s, tags[k], j)) by {
                        if k < rest.len() {
                            assert(tags[k] == rest[k]);
                        }
                    }
                }
            },
        }
    }
}

/// The earliest occurrence in `s` of one of `tags`: its position and the
/// tag's length, both counted in characters.
pub fn find_first_tag_chars(s: &[char], tags: &Vec<Vec<char>>) -> (res: Option<(usize, usize)>)
    ensures
        match res {
            Some((i, l)) => first_tag(s@, views(tags@)) == Some((i as int, l as int)),
            None => first_tag(s@, views(tags@)) is None,
        },
{
    let mut best: Option<(usize, usize)> = None;
    let mut k: usize = 0;
    assert(views(tags@).take(0) =~= Seq::<Seq<char>>::empty());
    while k < tags.len()
        invariant
            k <= tags@.len(),
            match best {
                Some((i, l)) => first_tag(s@, views(tags@).take(k as int)) == Some(
                    (i as int, l as int),
                ),
                None => first_tag(s@, views(tags@).take(k as int)) is None,
            },
        decreases tags@.len() - k,
    {
        let t = &tags[k];
        proof {
            let tk = views(tags@).take(k as int + 1);
            assert(tk.drop_last() =~= views(tags@).take(k as int));
            assert(tk.last() == t@);
        }
        match find_chars(s, t.as_slice(), 0) {
            None => {},
            Some(i) => {
                let replace = match best {
                    Some((bi, _)) => i < bi,
                    None => true,
                };
                if replace {
                    best = Some((i, t.len()));
                }
            },
        }
        k = k + 1;
    }
    assert(views(tags@).take(tags@.len() as int) =~= views(tags@));
    best
}

/// What `first_tag` finds, in bytes of the UTF-8 text: the offset of the
/// tag and its length.
pub open spec fn first_tag_bytes(s: Seq<char>, tags: Seq<Seq<char>>) -> Option<(usize, usize)> {
    match first_tag(s, tags) {
        Some((i, l)) => Some(
            (
                encode_utf8(s.take(i)).len() as usize,
                encode_utf8(s.subrange(i, i + l)).len() as usize,
            ),
        ),
        None => None,
    }
}

/// The earliest occurrence in `text` of one of `tags`: its byte offset and
/// the tag's length in bytes; where two tags start at the same place, the one
/// listed first.
pub fn find_first_tag(text: &str, tags: &[&str]) -> (res: Option<(usize, usize)>)
    ensures
        res == first_tag_bytes(text@, str_views(tags@)),
{
    let mut tv: Vec<Vec<char>> = Vec::new();
    let mut k: usize = 0;
    while k < tags.len()
        invariant
            k <= tags@.len(),
            views(tv@) == str_views(tags@).take(k as int),
        decreases tags@.len() - k,
    {
        let t = to_chars(tags[k]);
        let ghost before = views(tv@);
        tv.push(t);
        assert(views(tv@) =~= before.push(t@));
        assert(str_views(tags@).take(k as int + 1) =~= str_views(tags@).take(k as int).push(
            tags@[k as int]@,
        ));
        k = k + 1;
    }
    assert(str_views(tags@).take(tags@.len() as int) =~= str_views(tags@));
    let cs = to_chars(text);
    let n = cs.len();
    match find_first_tag_chars(cs.as_slice(), &tv) {
        Some((i, l)) => {
            proof {
                let tv = str_views(tags@);
                lemma_first_tag(text@, tv);
                let k = choose|k: int|
                    0 <= k < tv.len() && tag_len(first_tag(text@, tv)->0) == tv[k].len()
                        && #[trigger] occurs_at(text@, tv[k], tag_pos(first_tag(text@, tv)->0));
                assert(occurs_at(text@, tv[k], i as int));
                assert(i + l <= text@.len());
                assert(i + l <= n);
            }
            let before = text.substring_char(0, i);
            let tag = text.substring_char(i, i + l);
            assert(before@ =~= text@.take(i as int));
            Some((before.len(), tag.len()))
        },
        None => None,
    }
}

// ---------------------------------------------------------------------------
// Removing `<think>` blocks
// ---------------------------------------------------------------------------

/// The tags that open a reasoning block: `<think>` and `<thinking>`.
pub open spec fn think_open_tags() -> Seq<Seq<char>> {
    seq![seq!['<', 't', 'h', 'i', 'n', 'k', '>'], seq!['<', 't', 'h', 'i', 'n', 'k', 'i', 'n', 'g', '>']]
}

/// The tags that close a reasoning block: `</think>` and `</thinking>`.
pub open spec fn think_close_tags() -> Seq<Seq<char>> {
    seq![
        seq!['<', '/', 't', 'h', 'i', 'n', 'k', '>'],
        seq!['<', '/', 't', 'h', 'i', 'n', 'k', 'i', 'n', 'g', '>'],
    ]
}

pub proof fn lemma_first_tag_bounds(s: Seq<char>, tags: Seq<Seq<char>>)
    requires
        forall|k: int| 0 <= k < tags.len() ==> #[trigger] tags[k].len() >= 1,
    ensures
        first_tag(s, tags) matches Some((i, l)) ==> 0 <= i && 1 <= l && i + l <= s.len(),
{
    lemma_first_tag(s, tags);
    if let Some((i, l)) = first_tag(s, tags) {
        let k = choose|k: int|
            0 <= k < tags.len() && l == tags[k].len() && #[trigger] occurs_at(s, tags[k], i);
        assert(tags[k].len() >= 1);
    }
}

/// `s` with every reasoning block removed: each text from an opening tag to
/// the first closing tag after it goes, and an opening tag with no closing tag
/// after it cuts off the rest of the text.
pub open spec fn without_think(s: Seq<char>) -> Seq<char>
    decreases s.len(),
{
    match first_tag(s, think_open_tags()) {
        None => s,
        Some((start, len)) => {
            let after = s.skip(start + len);
            match first_tag(after, think_close_tags()) {
                None => s.take(start),
                Some((end, end_len)) => {
                    proof {
                        lemma_first_tag_bounds(s, think_open_tags());
                        lemma_first_tag_bounds(after, think_close_tags());
                    }
                    s.take(start) + without_think(after.skip(end + end_len))
                },
            }
        },
    }
}

fn think_open_tag_chars() -> (res: Vec<Vec<char>>)
    ensures
        views(res@) == think_open_tags(),
{
    let mut res: Vec<Vec<char>> = Vec::new();
    res.push(vec!['<', 't', 'h', 'i', 'n', 'k', '>']);
    res.push(vec!['<', 't', 'h', 'i', 'n', 'k', 'i', 'n', 'g', '>']);
    assert(views(res@) =~= think_open_tags());
    res
}

fn think_close_tag_chars() -> (res: Vec<Vec<char>>)
    ensures
        views(res@) == think_close_tags(),
{
    let mut res: Vec<Vec<char>> = Vec::new();
    res.push(vec!['<', '/', 't', 'h', 'i', 'n', 'k', '>']);
    res.push(vec!['<', '/', 't', 'h', 'i', 'n', 'k', 'i', 'n', 'g', '>']);
    assert(views(res@) =~= think_close_tags());
    res
}

/// `cs` with every reasoning block removed.
pub fn remove_think_block_chars(cs: &[char]) -> (res: Vec<char>)
    ensures
        res@ == without_think(cs@),
{
    let opens = think_open_tag_chars();
    let closes = think_close_tag_chars();
    let n = cs.len();
    let mut out: Vec<char> = Vec::new();
    let mut pos: usize = 0;
    assert(cs@.skip(0) =~= cs@);
    loop
        invariant
            pos <= n == cs@.len(),
            views(opens@) == think_open_tags(),
            views(closes@) == think_close_tags(),
            out@ + without_think(cs@.skip(pos as int)) == without_think(cs@),
        decreases n - pos,
    {
        let rest = slice_subrange(cs, pos, n);
        assert(rest@ =~= cs@.skip(pos as int));
        proof {
            lemma_first_tag_bounds(rest@, think_open_tags());
        }
        match find_first_tag_chars(rest, &opens) {
            None => {
                push_all(&mut out, rest);
                return out;
            },
            Some((start, len)) => {
                let after = slice_subrange(rest, start + len, rest.len());
                assert(after@ =~= rest@.skip(start + len));
                proof {
                    lemma_first_tag_bounds(after@, think_close_tags());
                }
                match find_first_tag_chars(after, &closes) {
                    None => {
                        let head = slice_subrange(rest, 0, start);
                        assert(head@ =~= rest@.take(start as int));
                        push_all(&mut out, head);
                        return out;
                    },
                    Some((end, end_len)) => {
                        let head = slice_subrange(rest, 0, start);
                        assert(head@ =~= rest@.take(start as int));
                        let ghost before = out@;
                        push_all(&mut out, head);
                        let next = pos + start + len + end + end_len;
                        assert(after@.skip(end + end_len) =~= cs@.skip(next as int));
                        assert(out@ + without_think(cs@.skip(next as int)) =~= before
                            + without_think(rest@));
                        pos = next;
                    },
                }
            },
        }
    }
}

/// `text` with every `<think>`/`<thinking>` block removed.
pub fn remove_think_blocks(text: &str) -> (res: String)
    ensures
        res@ == without_think(text@),
{
    let cs = to_chars(text);
    let r = remove_think_block_chars(cs.as_slice());
    from_chars(r.as_slice())
}

/// A text with no opening `<think>` or `<thinking>` tag is left as it is,
/// and removing blocks never makes a text longer.
pub proof fn lemma_without_think(s: Seq<char>)
    ensures
        first_tag(s, think_open_tags()) is None ==> without_think(s) == s,
        without_think(s).len() <= s.len(),
    decreases s.len(),
{
    if let Some((start, len)) = first_tag(s, think_open_tags()) {
        lemma_first_tag_bounds(s, think_open_tags());
        let after = s.skip(start + len);
        if let Some((end, end_len)) = first_tag(after, think_close_tags()) {
            lemma_first_tag_bounds(after, think_close_tags());
            lemma_without_think(after.skip(end + end_len));
        }
    }
}

} // verus!
