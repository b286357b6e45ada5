//! Turning a model's Markdown summary into the subset of Markdown that a
//! Discord message renders.
use vstd::prelude::*;
use vstd::string::StrSliceExecFns;

use crate::chars::{
    is_ws, nonempty, split_on, split_ws, strip_cr, trim_start, blank, contains, contains_chars, copy_range, find, find_chars, from_chars, has_char,
    has_prefix, is_ascii_digit, is_blank, is_digit, join, join_chars, lemma_find_from, lines,
    lines_of, push_all, starts_with, to_chars, trim, trim_bounds, trim_chars, trim_end,
    trim_end_chars, views, words, words_of,
};
use crate::sentences::{
    breaks_after, insert_sentence_line_break_chars, lemma_skip_ws_from, skip_ws_from,
    with_breaks_from, with_sentence_breaks,
};
use crate::text::{
    lemma_normalized_no_cr, normalize_newline_chars, normalized, remove_think_block_chars,
    without_think,
};

verus! {

// ---------------------------------------------------------------------------
// Recognising line kinds
// ---------------------------------------------------------------------------

/// How many times `c` repeats at the start of `s`.
pub open spec fn leading_count(s: Seq<char>, c: char) -> int
    decreases s.len(),
{
    if s.len() > 0 && s[0] == c {
        1 + leading_count(s.drop_first(), c)
    } else {
        0
    }
}

proof fn lemma_leading_count(s: Seq<char>, c: char, i: int)
    requires
        0 <= i <= s.len(),
        forall|j: int| 0 <= j < i ==> s[j] == c,
    ensures
        leading_count(s, c) == i + leading_count(s.skip(i), c),
    decreases i,
{
    if i > 0 {
        lemma_leading_count(s.drop_first(), c, i - 1);
        assert(s.drop_first().skip(i - 1) =~= s.skip(i));
    } else {
        assert(s.skip(0) =~= s);
    }
}

/// The text of a Markdown heading line (`#` to `######`, a space, then text
/// that is not blank), trimmed.
pub open spec fn heading(line: Seq<char>) -> Option<Seq<char>> {
    let h = leading_count(line, '#');
    let rest = line.skip(h);
    if 1 <= h <= 6 && rest.len() > 0 && rest[0] == ' ' && trim(rest.skip(1)).len() > 0 {
        Some(trim(rest.skip(1)))
    } else {
        None
    }
}

/// A line of at least three `-`, `*` or `_` (one kind only), once trimmed.
pub open spec fn horizontal_rule(line: Seq<char>) -> bool {
    let t = trim(line);
    &&& t.len() >= 3
    &&& {
        ||| forall|j: int| 0 <= j < t.len() ==> t[j] == '-'
        ||| forall|j: int| 0 <= j < t.len() ==> t[j] == '*'
        ||| forall|j: int| 0 <= j < t.len() ==> t[j] == '_'
    }
}

/// The separator between the number of a list item and its text.
pub open spec fn dot_space() -> Seq<char> {
    seq!['.', ' ']
}

/// A numbered list item: the digits before the first `. ` and the trimmed
/// text after it.
pub open spec fn numbered_item(line: Seq<char>) -> Option<(Seq<char>, Seq<char>)> {
    match find(line, dot_space()) {
        None => None,
        Some(p) => {
            let number = line.take(p);
            if number.len() > 0 && forall|j: int| 0 <= j < number.len() ==> is_ascii_digit(number[j]) {
                Some((number, trim(line.skip(p + 2))))
            } else {
                None
            }
        },
    }
}

/// A bullet list item (`- `, `* ` or `+ `): its trimmed text.
pub open spec fn bullet_item(line: Seq<char>) -> Option<Seq<char>> {
    if starts_with(line, seq!['-', ' ']) || starts_with(line, seq!['*', ' ']) || starts_with(
        line,
        seq!['+', ' '],
    ) {
        Some(trim(line.skip(2)))
    } else {
        None
    }
}

/// The bounds of the heading text within `cs`.
fn heading_bounds(cs: &[char]) -> (res: Option<(usize, usize)>)
    ensures
        match res {
            Some((a, b)) => a <= b <= cs@.len() && heading(cs@) == Some(
                cs@.subrange(a as int, b as int),
            ),
            None => heading(cs@) is None,
        },
{
    let n = cs.len();
    let mut h: usize = 0;
    while h < n && cs[h] == '#'
        invariant
            h <= n == cs@.len(),
            forall|j: int| 0 <= j < h ==> cs@[j] == '#',
        decreases n - h,
    {
        h = h + 1;
    }
    proof {
        lemma_leading_count(cs@, '#', h as int);
        let rest = cs@.skip(h as int);
        if rest.len() > 0 {
            assert(rest[0] == cs@[h as int]);
        }
    }
    if h < 1 || h > 6 || h >= n || cs[h] != ' ' {
        return None;
    }
    let tail = vstd::slice::slice_subrange(cs, h + 1, n);
    assert(tail@ =~= cs@.skip(h as int).skip(1));
    let (a, b) = trim_bounds(tail);
    if a == b {
        return None;
    }
    assert(cs@.subrange(h + 1 + a, h + 1 + b) =~= tail@.subrange(a as int, b as int));
    Some((h + 1 + a, h + 1 + b))
}

/// The text of a Markdown heading line, if `line` is one.
pub fn parse_markdown_heading(line: &str) -> (res: Option<&str>)
    ensures
        match res {
            Some(h) => heading(line@) == Some(h@),
            None => heading(line@) is None,
        },
{
    let cs = to_chars(line);
    match heading_bounds(cs.as_slice()) {
        Some((a, b)) => Some(line.substring_char(a, b)),
        None => None,
    }
}

fn heading_chars(cs: &[char]) -> (res: Option<Vec<char>>)
    ensures
        match res {
            Some(h) => heading(cs@) == Some(h@),
            None => heading(cs@) is None,
        },
{
    match heading_bounds(cs) {
        Some((a, b)) => Some(copy_range(cs, a, b)),
        None => None,
    }
}

fn all_same(cs: &[char], c: char) -> (res: bool)
    ensures
        res == forall|j: int| 0 <= j < cs@.len() ==> cs@[j] == c,
{
    let mut i: usize = 0;
    while i < cs.len()
        invariant
            i <= cs@.len(),
            forall|j: int| 0 <= j < i ==> cs@[j] == c,
        decreases cs@.len() - i,
    {
        if cs[i] != c {
            return false;
        }
        i = i + 1;
    }
    true
}

fn horizontal_rule_chars(cs: &[char]) -> (res: bool)
    ensures
        res == horizontal_rule(cs@),
{
    let t = trim_chars(cs);
    if t.len() < 3 {
        return false;
    }
    all_same(t.as_slice(), '-') || all_same(t.as_slice(), '*') || all_same(t.as_slice(), '_')
}

/// Whether `line` is a horizontal rule.
pub fn is_horizontal_rule(line: &str) -> (res: bool)
    ensures
        res == horizontal_rule(line@),
{
    let cs = to_chars(line);
    horizontal_rule_chars(cs.as_slice())
}

fn all_digits(cs: &[char]) -> (res: bool)
    ensures
        res == forall|j: int| 0 <= j < cs@.len() ==> is_ascii_digit(cs@[j]),
{
    let mut i: usize = 0;
    while i < cs.len()
        invariant
            i <= cs@.len(),
            forall|j: int| 0 <= j < i ==> is_ascii_digit(cs@[j]),
        decreases cs@.len() - i,
    {
        if !is_digit(cs[i]) {
            return false;
        }
        i = i + 1;
    }
    true
}

/// The bounds of the number and of the text of a numbered list item.
fn numbered_bounds(cs: &[char]) -> (res: Option<(usize, usize, usize)>)
    ensures
        match res {
            Some((p, a, b)) => p <= a <= b <= cs@.len() && numbered_item(cs@) == Some(
                (cs@.take(p as int), cs@.subrange(a as int, b as int)),
            ),
            None => numbered_item(cs@) is None,
        },
{
    let n = cs.len();
    let sep = vec!['.', ' '];
    assert(sep@ =~= dot_space());
    match find_chars(cs, sep.as_slice(), 0) {
        None => None,
        Some(p) => {
            proof {
                lemma_find_from(cs@, dot_space(), 0);
            }
            let number = vstd::slice::slice_subrange(cs, 0, p);
            assert(number@ =~= cs@.take(p as int));
            if p == 0 || !all_digits(number) {
                return None;
            }
            let tail = vstd::slice::slice_subrange(cs, p + 2, n);
            assert(tail@ =~= cs@.skip(p + 2));
            let (a, b) = trim_bounds(tail);
            assert(cs@.subrange(p + 2 + a, p + 2 + b) =~= tail@.subrange(a as int, b as int));
            Some((p, p + 2 + a, p + 2 + b))
        },
    }
}

/// The number and the text of a numbered list item, if `line` is one.
pub fn parse_numbered_list(line: &str) -> (res: Option<(&str, &str)>)
    ensures
        match res {
            Some((number, rest)) => numbered_item(line@) == Some((number@, rest@)),
            None => numbered_item(line@) is None,
        },
{
    let cs = to_chars(line);
    match numbered_bounds(cs.as_slice()) {
        Some((p, a, b)) => {
            assert(cs@.take(p as int) =~= cs@.subrange(0, p as int));
            Some((line.substring_char(0, p), line.substring_char(a, b)))
        },
        None => None,
    }
}

/// The bounds of the text of a bullet list item.
fn bullet_bounds(cs: &[char]) -> (res: Option<(usize, usize)>)
    ensures
        match res {
            Some((a, b)) => a <= b <= cs@.len() && bullet_item(cs@) == Some(
                cs@.subrange(a as int, b as int),
            ),
            None => bullet_item(cs@) is None,
        },
{
    let dash = vec!['-', ' '];
    let star = vec!['*', ' '];
    let plus = vec!['+', ' '];
    assert(dash@ =~= seq!['-', ' ']);
    assert(star@ =~= seq!['*', ' ']);
    assert(plus@ =~= seq!['+', ' ']);
    if has_prefix(cs, dash.as_slice()) || has_prefix(cs, star.as_slice()) || has_prefix(
        cs,
        plus.as_slice(),
    ) {
        let tail = vstd::slice::slice_subrange(cs, 2, cs.len());
        assert(tail@ =~= cs@.skip(2));
        let (a, b) = trim_bounds(tail);
        assert(cs@.subrange(2 + a, 2 + b) =~= tail@.subrange(a as int, b as int));
        Some((2 + a, 2 + b))
    } else {
        None
    }
}

/// The text of a bullet list item, if `line` is one.
pub fn parse_bullet_list(line: &str) -> (res: Option<&str>)
    ensures
        match res {
            Some(rest) => bullet_item(line@) == Some(rest@),
            None => bullet_item(line@) is None,
        },
{
    let cs = to_chars(line);
    match bullet_bounds(cs.as_slice()) {
        Some((a, b)) => Some(line.substring_char(a, b)),
        None => None,
    }
}

// ---------------------------------------------------------------------------
// White space and blank lines
// ---------------------------------------------------------------------------

/// The words of `line` joined by single spaces.
pub open spec fn collapsed_inline(line: Seq<char>) -> Seq<char> {
    join(words(line), seq![' '])
}

fn collapse_inline_chars(cs: &[char]) -> (res: Vec<char>)
    ensures
        res@ == collapsed_inline(cs@),
{
    let ws = words_of(cs);
    let sep = vec![' '];
    assert(sep@ =~= seq![' ']);
    join_chars(&ws, sep.as_slice())
}

/// `line` with each run of white space turned into one space and none at
/// either end.
pub fn collapse_inline_whitespace(line: &str) -> (res: String)
    ensures
        res@ == collapsed_inline(line@),
{
    let cs = to_chars(line);
    let r = collapse_inline_chars(cs.as_slice());
    from_chars(r.as_slice())
}

/// The lines kept when runs of blank lines are collapsed: a blank line
/// becomes empty and is kept only when the line before it is not blank.
pub open spec fn kept_lines(ls: Seq<Seq<char>>) -> Seq<Seq<char>>
    decreases ls.len(),
{
    if ls.len() == 0 {
        Seq::empty()
    } else {
        let prev = kept_lines(ls.drop_last());
        if is_blank(ls.last()) {
            if ls.len() >= 2 && is_blank(ls[ls.len() - 2]) {
                prev
            } else {
                prev.push(Seq::empty())
            }
        } else {
            prev.push(ls.last())
        }
    }
}

/// The text with runs of blank lines collapsed to one empty line and white
/// space trimmed from both ends.
pub open spec fn collapsed_blank_lines(s: Seq<char>) -> Seq<char> {
    trim(join(kept_lines(lines(s)), seq!['\n']))
}

fn collapse_blank_line_chars(cs: &[char]) -> (res: Vec<char>)
    ensures
        res@ == collapsed_blank_lines(cs@),
{
    let ls = lines_of(cs);
    let mut kept: Vec<Vec<char>> = Vec::new();
    let mut prev_blank = false;
    let mut k: usize = 0;
    assert(views(ls@).take(0) =~= Seq::<Seq<char>>::empty());
    while k < ls.len()
        invariant
            k <= ls@.len(),
            views(kept@) == kept_lines(views(ls@).take(k as int)),
            k > 0 ==> prev_blank == is_blank(views(ls@)[k - 1]),
        decreases ls@.len() - k,
    {
        let line = &ls[k];
        let ghost t = views(ls@).take(k as int + 1);
        assert(t.drop_last() =~= views(ls@).take(k as int));
        assert(t.last() == line@);
        let ghost before = views(kept@);
        let b = blank(line.as_slice());
        if b {
            if !(k >= 1 && prev_blank) {
                kept.push(Vec::new());
                assert(views(kept@) =~= before.push(Seq::empty()));
            }
            assert(k >= 1 ==> t[t.len() - 2] == views(ls@)[k - 1]);
        } else {
            let copy = copy_range(line.as_slice(), 0, line.len());
            assert(copy@ =~= line@);
            kept.push(copy);
            assert(views(kept@) =~= before.push(line@));
        }
        prev_blank = b;
        k = k + 1;
    }
    assert(views(ls@).take(ls@.len() as int) =~= views(ls@));
    let nl = vec!['\n'];
    assert(nl@ =~= seq!['\n']);
    let joined = join_chars(&kept, nl.as_slice());
    trim_chars(joined.as_slice())
}

/// `text` with runs of blank lines collapsed to one empty line, trimmed.
pub fn collapse_blank_lines(text: &str) -> (res: String)
    ensures
        res@ == collapsed_blank_lines(text@),
{
    let cs = to_chars(text);
    let r = collapse_blank_line_chars(cs.as_slice());
    from_chars(r.as_slice())
}

// ---------------------------------------------------------------------------
// Formatting a summary for Discord
// ---------------------------------------------------------------------------

/// The fence that opens and closes a code block.
pub open spec fn fence() -> Seq<char> {
    seq!['`', '`', '`']
}

/// `**text**`.
pub open spec fn bold(t: Seq<char>) -> Seq<char> {
    seq!['*', '*'] + t + seq!['*', '*']
}

/// A bullet item, indented under a numbered item when `nested`.
pub open spec fn bullet_line(nested: bool, t: Seq<char>) -> Seq<char> {
    (if nested {
        seq![' ', ' ']
    } else {
        Seq::empty()
    }) + seq!['-', ' '] + t
}

/// The state while lines are formatted: the lines produced so far, whether a
/// code block is open, and whether the last item was a numbered one.
pub struct FormatState {
    pub out: Seq<Seq<char>>,
    pub in_code: bool,
    pub ordered: bool,
}

/// Formats one line of the summary.  Code blocks are kept as they are (with
/// trailing white space removed); blank lines, headings and horizontal rules
/// end a numbered list; a heading becomes bold text followed by an empty
/// line; a horizontal rule becomes an empty line; list items are normalised;
/// any other line has its white space collapsed.
pub open spec fn format_step(st: FormatState, raw: Seq<char>) -> FormatState {
    let tl = trim_end(raw);
    let cl = trim(tl);
    if starts_with(cl, fence()) {
        FormatState { out: st.out.push(tl), in_code: !st.in_code, ordered: st.ordered }
    } else if st.in_code {
        FormatState { out: st.out.push(tl), ..st }
    } else if cl.len() == 0 {
        FormatState { out: st.out.push(Seq::empty()), ordered: false, ..st }
    } else if heading(cl) is Some {
        FormatState {
            out: st.out.push(bold(heading(cl)->0)).push(Seq::empty()),
            ordered: false,
            ..st
        }
    } else if horizontal_rule(cl) {
        FormatState { out: st.out.push(Seq::empty()), ordered: false, ..st }
    } else if numbered_item(cl) is Some {
        let (number, rest) = numbered_item(cl)->0;
        FormatState { out: st.out.push(number + dot_space() + rest), ordered: true, ..st }
    } else if bullet_item(cl) is Some {
        FormatState { out: st.out.push(bullet_line(st.ordered, bullet_item(cl)->0)), ..st }
    } else {
        FormatState { out: st.out.push(collapsed_inline(cl)), ordered: false, ..st }
    }
}

/// The state after formatting all of `ls`, starting outside any code block
/// or list.
pub open spec fn format_lines(ls: Seq<Seq<char>>) -> FormatState
    decreases ls.len(),
{
    if ls.len() == 0 {
        FormatState { out: Seq::empty(), in_code: false, ordered: false }
    } else {
        format_step(format_lines(ls.drop_last()), ls.last())
    }
}

/// The summary with reasoning blocks removed and line endings normalised;
/// a text that is a single line without code fences also gets one sentence
/// per line.
pub open spec fn discord_prepared(s: Seq<char>) -> Seq<char> {
    let t = normalized(without_think(s));
    if !t.contains('\n') && !contains(t, fence()) {
        with_sentence_breaks(t)
    } else {
        t
    }
}

/// A summary formatted for a Discord message.
pub open spec fn discord_formatted(s: Seq<char>) -> Seq<char> {
    collapsed_blank_lines(join(format_lines(lines(discord_prepared(s))).out, seq!['\n']))
}

fn format_line(out: &mut Vec<Vec<char>>, in_code: &mut bool, ordered: &mut bool, raw: &[char])
    ensures
        (FormatState { out: views(final(out)@), in_code: *final(in_code), ordered: *final(ordered) })
            == format_step(
            FormatState { out: views(old(out)@), in_code: *old(in_code), ordered: *old(ordered) },
            raw@,
        ),
{
    let ghost before = views(out@);
    let tl = trim_end_chars(raw);
    let cl = trim_chars(tl.as_slice());
    let fence_chars = vec!['`', '`', '`'];
    assert(fence_chars@ =~= fence());
    if has_prefix(cl.as_slice(), fence_chars.as_slice()) {
        out.push(tl);
        *in_code = !*in_code;
        assert(views(out@) =~= before.push(trim_end(raw@)));
        return;
    }
    if *in_code {
        out.push(tl);
        assert(views(out@) =~= before.push(trim_end(raw@)));
        return;
    }
    if cl.len() == 0 {
        out.push(Vec::new());
        *ordered = false;
        assert(views(out@) =~= before.push(Seq::empty()));
        return;
    }
    match heading_chars(cl.as_slice()) {
        Some(h) => {
            let mut line: Vec<char> = vec!['*', '*'];
            push_all(&mut line, h.as_slice());
            line.push('*');
            line.push('*');
            assert(line@ =~= bold(h@));
            out.push(line);
            out.push(Vec::new());
            *ordered = false;
            assert(views(out@) =~= before.push(bold(h@)).push(Seq::empty()));
            return;
        },
        None => {},
    }
    if horizontal_rule_chars(cl.as_slice()) {
        out.push(Vec::new());
        *ordered = false;
        assert(views(out@) =~= before.push(Seq::empty()));
        return;
    }
    match numbered_bounds(cl.as_slice()) {
        Some((p, a, b)) => {
            let mut line = copy_range(cl.as_slice(), 0, p);
            line.push('.');
            line.push(' ');
            let rest = vstd::slice::slice_subrange(cl.as_slice(), a, b);
            push_all(&mut line, rest);
            assert(line@ =~= cl@.take(p as int) + dot_space() + cl@.subrange(a as int, b as int));
            let ghost l = line@;
            out.push(line);
            *ordered = true;
            assert(views(out@) =~= before.push(l));
            return;
        },
        None => {},
    }
    match bullet_bounds(cl.as_slice()) {
        Some((a, b)) => {
            let mut line: Vec<char> = Vec::new();
            if *ordered {
                line.push(' ');
                line.push(' ');
            }
            line.push('-');
            line.push(' ');
            let rest = vstd::slice::slice_subrange(cl.as_slice(), a, b);
            push_all(&mut line, rest);
            assert(line@ =~= bullet_line(*ordered, cl@.subrange(a as int, b as int)));
            let ghost l = line@;
            out.push(line);
            assert(views(out@) =~= before.push(l));
            return;
        },
        None => {},
    }
    let line = collapse_inline_chars(cl.as_slice());
    let ghost l = line@;
    out.push(line);
    *ordered = false;
    assert(views(out@) =~= before.push(l));
}

/// The summary with reasoning blocks removed, line endings normalised and,
/// for a single line without code fences, one sentence per line.
fn prepare_for_discord(cs: &[char]) -> (res: Vec<char>)
    ensures
        res@ == discord_prepared(cs@),
{
    let no_think = remove_think_block_chars(cs);
    let t = normalize_newline_chars(no_think.as_slice());
    let fence_chars = vec!['`', '`', '`'];
    assert(fence_chars@ =~= fence());
    if !has_char(t.as_slice(), '\n') && !contains_chars(t.as_slice(), fence_chars.as_slice()) {
        insert_sentence_line_break_chars(t.as_slice())
    } else {
        t
    }
}

/// `cs` formatted for a Discord message.
pub fn format_summary_chars(cs: &[char]) -> (res: Vec<char>)
    ensures
        res@ == discord_formatted(cs@),
{
    let text = prepare_for_discord(cs);
    let ls = lines_of(text.as_slice());
    let mut out: Vec<Vec<char>> = Vec::new();
    let mut in_code = false;
    let mut ordered = false;
    let mut k: usize = 0;
    assert(views(ls@).take(0) =~= Seq::<Seq<char>>::empty());
    assert(views(out@) =~= Seq::<Seq<char>>::empty());
    while k < ls.len()
        invariant
            k <= ls@.len(),
            (FormatState { out: views(out@), in_code, ordered }) == format_lines(
                views(ls@).take(k as int),
            ),
        decreases ls@.len() - k,
    {
        let ghost t = views(ls@).take(k as int + 1);
        assert(t.drop_last() =~= views(ls@).take(k as int));
        assert(t.last() == ls@[k as int]@);
        format_line(&mut out, &mut in_code, &mut ordered, ls[k].as_slice());
        k = k + 1;
    }
    assert(views(ls@).take(ls@.len() as int) =~= views(ls@));
    let nl = vec!['\n'];
    assert(nl@ =~= seq!['\n']);
    let joined = join_chars(&out, nl.as_slice());
    collapse_blank_line_chars(joined.as_slice())
}

/// `summary_text` formatted for a Discord message: reasoning blocks removed,
/// one sentence per line for a one-line text, headings in bold, horizontal
/// rules dropped, list items normalised, white space collapsed outside code
/// blocks, and blank lines collapsed.
pub fn format_summary_for_discord(summary_text: &str) -> (res: String)
    ensures
        res@ == discord_formatted(summary_text@),
{
    let cs = to_chars(summary_text);
    let r = format_summary_chars(cs.as_slice());
    from_chars(r.as_slice())
}

// ---------------------------------------------------------------------------
// Properties
// ---------------------------------------------------------------------------

proof fn lemma_blank_nonempty(l: Seq<char>)
    ensures
        !is_blank(l) ==> l.len() > 0,
{
    crate::chars::lemma_trim_idempotent(l);
}

/// After collapsing, no two neighbouring lines are both empty, a blank
/// line is kept as an empty line and any other line as it is.
pub proof fn lemma_kept_lines(ls: Seq<Seq<char>>)
    ensures
        forall|i: int|
            0 <= i < kept_lines(ls).len() - 1 ==> !(#[trigger] kept_lines(ls)[i].len() == 0
                && kept_lines(ls)[i + 1].len() == 0),
        ls.len() > 0 ==> kept_lines(ls).len() > 0 && (kept_lines(ls).last().len() == 0
            <==> is_blank(ls.last())),
    decreases ls.len(),
{
    if ls.len() > 0 {
        let prev = kept_lines(ls.drop_last());
        lemma_kept_lines(ls.drop_last());
        lemma_blank_nonempty(ls.last());
        let k = kept_lines(ls);
        if ls.len() >= 2 {
            assert(ls.drop_last().last() == ls[ls.len() - 2]);
        }
        if is_blank(ls.last()) && ls.len() >= 2 && is_blank(ls[ls.len() - 2]) {
            assert(k == prev);
        } else {
            assert forall|i: int| 0 <= i < k.len() - 1 implies !(#[trigger] k[i].len() == 0
                && k[i + 1].len() == 0) by {
                if i < k.len() - 2 {
                    assert(k[i] == prev[i]);
                    assert(k[i + 1] == prev[i + 1]);
                } else {
                    assert(k[i] == prev.last());
                }
            }
        }
    }
}

/// Collapsed text has no white space at either end.
pub proof fn lemma_collapsed_trimmed(s: Seq<char>)
    ensures
        trim(collapsed_blank_lines(s)) == collapsed_blank_lines(s),
{
    crate::chars::lemma_trim_idempotent(join(kept_lines(lines(s)), seq!['\n']));
}

/// A formatted summary has no white space at either end.
pub proof fn lemma_discord_formatted_trimmed(s: Seq<char>)
    ensures
        trim(discord_formatted(s)) == discord_formatted(s),
{
    lemma_collapsed_trimmed(join(format_lines(lines(discord_prepared(s))).out, seq!['\n']));
}

/// No character of `s` is `c`.
spec fn lacks(s: Seq<char>, c: char) -> bool {
    forall|i: int| 0 <= i < s.len() ==> s[i] != c
}

/// No piece of `ls` holds `c`.
spec fn all_lack(ls: Seq<Seq<char>>, c: char) -> bool {
    forall|i: int| 0 <= i < ls.len() ==> lacks(#[trigger] ls[i], c)
}

proof fn lemma_leading_count_bound(s: Seq<char>, c: char)
    ensures
        0 <= leading_count(s, c) <= s.len(),
    decreases s.len(),
{
    if s.len() > 0 && s[0] == c {
        lemma_leading_count_bound(s.drop_first(), c);
    }
}

proof fn lemma_concat_lacks(a: Seq<char>, b: Seq<char>, c: char)
    requires
        lacks(a, c),
        lacks(b, c),
    ensures
        lacks(a + b, c),
{
    assert forall|i: int| 0 <= i < (a + b).len() implies (a + b)[i] != c by {
        if i < a.len() {
            assert((a + b)[i] == a[i]);
        } else {
            assert((a + b)[i] == b[i - a.len()]);
        }
    }
}

proof fn lemma_skip_lacks(s: Seq<char>, k: int, c: char)
    requires
        lacks(s, c),
        0 <= k <= s.len(),
    ensures
        lacks(s.skip(k), c),
{
    assert forall|i: int| 0 <= i < s.skip(k).len() implies s.skip(k)[i] != c by {
        assert(s.skip(k)[i] == s[k + i]);
    }
}

proof fn lemma_trim_lacks(s: Seq<char>, c: char)
    requires
        lacks(s, c),
    ensures
        lacks(trim_end(s), c),
        lacks(trim_start(s), c),
        lacks(trim(s), c),
{
    lemma_trim_end_lacks(s, c);
    lemma_trim_start_lacks(s, c);
    lemma_trim_end_lacks(trim_start(s), c);
}

proof fn lemma_trim_end_lacks(s: Seq<char>, c: char)
    requires
        lacks(s, c),
    ensures
        lacks(trim_end(s), c),
    decreases s.len(),
{
    if s.len() > 0 && is_ws(s.last()) {
        lemma_trim_end_lacks(s.drop_last(), c);
    }
}

proof fn lemma_trim_start_lacks(s: Seq<char>, c: char)
    requires
        lacks(s, c),
    ensures
        lacks(trim_start(s), c),
    decreases s.len(),
{
    if s.len() > 0 && is_ws(s[0]) {
        lemma_trim_start_lacks(s.drop_first(), c);
    }
}

proof fn lemma_split_ws_pieces(s: Seq<char>, c: char)
    requires
        is_ws(c),
    ensures
        split_ws(s).len() >= 1,
        all_lack(split_ws(s), c),
    decreases s.len(),
{
    if s.len() > 0 {
        lemma_split_ws_pieces(s.drop_last(), c);
        let p = split_ws(s.drop_last());
        let q = split_ws(s);
        if !is_ws(s.last()) {
            assert forall|i: int| 0 <= i < q.len() implies lacks(#[trigger] q[i], c) by {
                if i < p.len() - 1 {
                    assert(q[i] == p[i]);
                } else {
                    assert(q[i] == p.last().push(s.last()));
                    assert(lacks(p[p.len() - 1], c));
                }
            }
        } else {
            assert forall|i: int| 0 <= i < q.len() implies lacks(#[trigger] q[i], c) by {
                if i < p.len() {
                    assert(q[i] == p[i]);
                }
            }
        }
    }
}

proof fn lemma_words_lack(s: Seq<char>, c: char)
    requires
        is_ws(c),
    ensures
        all_lack(words(s), c),
{
    broadcast use Seq::lemma_filter_contains_rev;

    lemma_split_ws_pieces(s, c);
    assert forall|i: int| 0 <= i < words(s).len() implies lacks(#[trigger] words(s)[i], c) by {
        assert(words(s).contains(words(s)[i]));
        assert(split_ws(s).contains(words(s)[i]));
        let k = choose|k: int| 0 <= k < split_ws(s).len() && split_ws(s)[k] == words(s)[i];
        assert(lacks(split_ws(s)[k], c));
    }
}

proof fn lemma_join_lacks(parts: Seq<Seq<char>>, sep: Seq<char>, c: char)
    requires
        all_lack(parts, c),
        lacks(sep, c),
    ensures
        lacks(join(parts, sep), c),
    decreases parts.len(),
{
    if parts.len() == 1 {
        assert(lacks(parts[0], c));
    } else if parts.len() > 1 {
        lemma_join_lacks(parts.drop_last(), sep, c);
        assert(lacks(parts[parts.len() - 1], c));
        let a = join(parts.drop_last(), sep);
        let j = a + sep + parts.last();
        assert forall|i: int| 0 <= i < j.len() implies j[i] != c by {
            if i < a.len() {
                assert(j[i] == a[i]);
            } else if i < a.len() + sep.len() {
                assert(j[i] == sep[i - a.len()]);
            } else {
                assert(j[i] == parts.last()[i - a.len() - sep.len()]);
            }
        }
    }
}

proof fn lemma_split_on_lacks(s: Seq<char>, sep: char, c: char)
    requires
        lacks(s, c),
    ensures
        split_on(s, sep).len() >= 1,
        all_lack(split_on(s, sep), c),
        all_lack(split_on(s, sep), sep),
    decreases s.len(),
{
    if s.len() > 0 {
        lemma_split_on_lacks(s.drop_last(), sep, c);
        let p = split_on(s.drop_last(), sep);
        let q = split_on(s, sep);
        if s.last() != sep {
            assert forall|i: int| 0 <= i < q.len() implies lacks(#[trigger] q[i], c) && lacks(
                q[i],
                sep,
            ) by {
                if i < p.len() - 1 {
                    assert(q[i] == p[i]);
                } else {
                    assert(q[i] == p.last().push(s.last()));
                    assert(lacks(p[p.len() - 1], c) && lacks(p[p.len() - 1], sep));
                }
            }
        } else {
            assert forall|i: int| 0 <= i < q.len() implies lacks(#[trigger] q[i], c) && lacks(
                q[i],
                sep,
            ) by {
                if i < p.len() {
                    assert(q[i] == p[i]);
                }
            }
        }
    }
}

proof fn lemma_lines_lack(s: Seq<char>, c: char)
    requires
        lacks(s, c),
    ensures
        all_lack(lines(s), c),
        all_lack(lines(s), '\n'),
{
    lemma_split_on_lacks(s, '\n', c);
    let p = split_on(s, '\n');
    let t = p.drop_last().map_values(|l: Seq<char>| strip_cr(l));
    assert forall|i: int| 0 <= i < t.len() implies lacks(#[trigger] t[i], c) && lacks(
        t[i],
        '\n',
    ) by {
        assert(lacks(p[i], c) && lacks(p[i], '\n'));
        assert(t[i] == strip_cr(p[i]));
    }
    assert(lacks(p[p.len() - 1], c) && lacks(p[p.len() - 1], '\n'));
    let ls = lines(s);
    assert forall|i: int| 0 <= i < ls.len() implies lacks(#[trigger] ls[i], c) && lacks(
        ls[i],
        '\n',
    ) by {
        if i < t.len() {
            assert(ls[i] == t[i]);
        }
    }
}

proof fn lemma_kept_lines_lack(ls: Seq<Seq<char>>, c: char)
    requires
        all_lack(ls, c),
    ensures
        all_lack(kept_lines(ls), c),
    decreases ls.len(),
{
    if ls.len() > 0 {
        lemma_kept_lines_lack(ls.drop_last(), c);
        let prev = kept_lines(ls.drop_last());
        let k = kept_lines(ls);
        assert(lacks(ls[ls.len() - 1], c));
        assert forall|i: int| 0 <= i < k.len() implies lacks(#[trigger] k[i], c) by {
            if i < prev.len() {
                assert(k[i] == prev[i]);
            }
        }
    }
}

proof fn lemma_breaks_lack(s: Seq<char>, i: int, c: char)
    requires
        lacks(s, c),
        c != '\n',
    ensures
        lacks(with_breaks_from(s, i), c),
    decreases s.len() - i,
{
    if 0 <= i < s.len() {
        if breaks_after(s, i) {
            lemma_skip_ws_from(s, i + 1);
            lemma_breaks_lack(s, skip_ws_from(s, i + 1), c);
        } else {
            lemma_breaks_lack(s, i + 1, c);
        }
    }
}

proof fn lemma_format_lines_lack(ls: Seq<Seq<char>>)
    requires
        all_lack(ls, '\r'),
    ensures
        all_lack(format_lines(ls).out, '\r'),
    decreases ls.len(),
{
    if ls.len() > 0 {
        lemma_format_lines_lack(ls.drop_last());
        let st = format_lines(ls.drop_last());
        let raw = ls.last();
        assert(lacks(ls[ls.len() - 1], '\r'));
        let tl = trim_end(raw);
        let cl = trim(tl);
        lemma_trim_lacks(raw, '\r');
        lemma_trim_lacks(tl, '\r');
        let h = leading_count(cl, '#');
        if heading(cl) is Some {
            lemma_leading_count_bound(cl, '#');
            lemma_skip_lacks(cl, h, '\r');
            lemma_skip_lacks(cl.skip(h), 1, '\r');
            lemma_trim_lacks(cl.skip(h).skip(1), '\r');
            lemma_concat_lacks(seq!['*', '*'], heading(cl)->0, '\r');
            lemma_concat_lacks(seq!['*', '*'] + heading(cl)->0, seq!['*', '*'], '\r');
        }
        match find(cl, dot_space()) {
            Some(p) => {
                lemma_find_from(cl, dot_space(), 0);
                lemma_skip_lacks(cl, p + 2, '\r');
                lemma_trim_lacks(cl.skip(p + 2), '\r');
                assert(lacks(cl.take(p), '\r'));
                lemma_concat_lacks(cl.take(p), dot_space(), '\r');
                lemma_concat_lacks(cl.take(p) + dot_space(), trim(cl.skip(p + 2)), '\r');
            },
            None => {},
        }
        if bullet_item(cl) is Some {
            lemma_skip_lacks(cl, 2, '\r');
            lemma_trim_lacks(cl.skip(2), '\r');
            let lead = if st.ordered {
                seq![' ', ' ']
            } else {
                Seq::<char>::empty()
            };
            lemma_concat_lacks(lead, seq!['-', ' '], '\r');
            lemma_concat_lacks(lead + seq!['-', ' '], bullet_item(cl)->0, '\r');
        }
        lemma_words_lack(cl, '\r');
        lemma_join_lacks(words(cl), seq![' '], '\r');
        let out = format_lines(ls).out;
        assert forall|i: int| 0 <= i < out.len() implies lacks(#[trigger] out[i], '\r') by {
            if i < st.out.len() {
                assert(out[i] == st.out[i]);
            }
        }
    }
}

/// `s` has three line breaks in a row at `p`.
spec fn blank_run_at(s: Seq<char>, p: int) -> bool {
    0 <= p && p + 2 < s.len() && s[p] == '\n' && s[p + 1] == '\n' && s[p + 2] == '\n'
}

proof fn lemma_join_ends_with_break(parts: Seq<Seq<char>>)
    requires
        all_lack(parts, '\n'),
        join(parts, seq!['\n']).len() > 0,
        join(parts, seq!['\n']).last() == '\n',
    ensures
        parts.len() >= 2,
        parts.last().len() == 0,
{
    if parts.len() == 1 {
        assert(lacks(parts[0], '\n'));
        assert(join(parts, seq!['\n']) == parts[0]);
    } else if parts.len() > 1 {
        assert(lacks(parts[parts.len() - 1], '\n'));
        let a = join(parts.drop_last(), seq!['\n']);
        let j = a + seq!['\n'] + parts.last();
        if parts.last().len() > 0 {
            assert(j.last() == parts.last().last());
        }
    }
}

proof fn lemma_join_no_blank_run(parts: Seq<Seq<char>>)
    requires
        all_lack(parts, '\n'),
        forall|i: int|
            0 <= i < parts.len() - 1 ==> !(#[trigger] parts[i].len() == 0 && parts[i + 1].len()
                == 0),
    ensures
        forall|p: int| !blank_run_at(join(parts, seq!['\n']), p),
    decreases parts.len(),
{
    if parts.len() == 1 {
        assert(lacks(parts[0], '\n'));
    } else if parts.len() > 1 {
        let d = parts.drop_last();
        assert forall|i: int| 0 <= i < d.len() - 1 implies !(#[trigger] d[i].len() == 0 && d[i
            + 1].len() == 0) by {
            assert(d[i] == parts[i] && d[i + 1] == parts[i + 1]);
        }
        assert forall|i: int| 0 <= i < d.len() implies lacks(#[trigger] d[i], '\n') by {
            assert(d[i] == parts[i]);
        }
        lemma_join_no_blank_run(d);
        let a = join(d, seq!['\n']);
        let l = parts.last();
        assert(lacks(parts[parts.len() - 1], '\n'));
        let j = a + seq!['\n'] + l;
        assert(j == join(parts, seq!['\n']));
        assert forall|p: int| !blank_run_at(j, p) by {
            if blank_run_at(j, p) {
                if p + 2 < a.len() {
                    assert(j[p] == a[p] && j[p + 1] == a[p + 1] && j[p + 2] == a[p + 2]);
                    assert(blank_run_at(a, p));
                } else if p + 2 > a.len() {
                    assert(j[p + 2] == l[p + 2 - a.len() - 1]);
                } else {
                    assert(a[p] == '\n' && a[p + 1] == '\n');
                    assert(a.last() == '\n');
                    lemma_join_ends_with_break(d);
                    let b = join(d.drop_last(), seq!['\n']);
                    assert(a == b + seq!['\n'] + d.last());
                    assert(a == b + seq!['\n']);
                    assert(b.len() > 0 && b.last() == '\n');
                    assert(d.drop_last().len() >= 1);
                    assert forall|i: int| 0 <= i < d.drop_last().len() implies lacks(
                        #[trigger] d.drop_last()[i],
                        '\n',
                    ) by {
                        assert(d.drop_last()[i] == d[i]);
                    }
                    lemma_join_ends_with_break(d.drop_last());
                    assert(d[d.len() - 2].len() == 0 && d[d.len() - 1].len() == 0);
                }
            }
        }
    }
}

proof fn lemma_trim_no_blank_run(s: Seq<char>)
    requires
        forall|p: int| !blank_run_at(s, p),
    ensures
        forall|p: int| !blank_run_at(trim(s), p),
{
    lemma_trim_start_no_blank_run(s);
    lemma_trim_end_no_blank_run(trim_start(s));
}

proof fn lemma_trim_end_no_blank_run(s: Seq<char>)
    requires
        forall|p: int| !blank_run_at(s, p),
    ensures
        forall|p: int| !blank_run_at(trim_end(s), p),
    decreases s.len(),
{
    if s.len() > 0 && is_ws(s.last()) {
        let d = s.drop_last();
        assert forall|p: int| !blank_run_at(d, p) by {
            if blank_run_at(d, p) {
                assert(blank_run_at(s, p));
            }
        }
        lemma_trim_end_no_blank_run(d);
        assert(trim_end(s) == trim_end(d));
    } else {
        assert(trim_end(s) == s);
    }
}

proof fn lemma_trim_start_no_blank_run(s: Seq<char>)
    requires
        forall|p: int| !blank_run_at(s, p),
    ensures
        forall|p: int| !blank_run_at(trim_start(s), p),
    decreases s.len(),
{
    if s.len() > 0 && is_ws(s[0]) {
        let d = s.drop_first();
        assert forall|p: int| !blank_run_at(d, p) by {
            if blank_run_at(d, p) {
                assert(blank_run_at(s, p + 1));
            }
        }
        lemma_trim_start_no_blank_run(d);
        assert(trim_start(s) == trim_start(d));
    } else {
        assert(trim_start(s) == s);
    }
}

/// A formatted summary holds no carriage return and never three line
/// breaks in a row, so never two blank lines in a row.
pub proof fn lemma_discord_formatted_clean(s: Seq<char>)
    ensures
        !discord_formatted(s).contains('\r'),
        !contains(discord_formatted(s), seq!['\n', '\n', '\n']),
{
    let t = normalized(without_think(s));
    lemma_normalized_no_cr(without_think(s));
    assert(lacks(t, '\r'));
    let prepared = discord_prepared(s);
    if !t.contains('\n') && !contains(t, fence()) {
        lemma_breaks_lack(t, 0, '\r');
    }
    assert(lacks(prepared, '\r'));
    lemma_lines_lack(prepared, '\r');
    lemma_format_lines_lack(lines(prepared));
    let out = format_lines(lines(prepared)).out;
    lemma_join_lacks(out, seq!['\n'], '\r');
    let joined = join(out, seq!['\n']);
    lemma_lines_lack(joined, '\r');
    let kept = kept_lines(lines(joined));
    lemma_kept_lines_lack(lines(joined), '\r');
    lemma_kept_lines_lack(lines(joined), '\n');
    lemma_join_lacks(kept, seq!['\n'], '\r');
    let collapsed = join(kept, seq!['\n']);
    lemma_trim_lacks(collapsed, '\r');
    assert(discord_formatted(s) == trim(collapsed));
    lemma_kept_lines(lines(joined));
    lemma_join_no_blank_run(kept);
    lemma_trim_no_blank_run(collapsed);
    let r = discord_formatted(s);
    let nl3 = seq!['\n', '\n', '\n'];
    lemma_find_from(r, nl3, 0);
    if contains(r, nl3) {
        let j = find(r, nl3)->0;
        assert(r.subrange(j, j + 3) == nl3);
        assert(r[j] == r.subrange(j, j + 3)[0]);
        assert(r[j + 1] == r.subrange(j, j + 3)[1]);
        assert(r[j + 2] == r.subrange(j, j + 3)[2]);
        assert(blank_run_at(r, j));
    }
}

/// A heading line ends a numbered list: after it the formatter is outside
/// any list and any code block, and the heading has become bold text
/// followed by an empty line.  So a bullet line right after a heading is
/// not indented.
pub proof fn lemma_heading_ends_list(st: FormatState, h: Seq<char>, b: Seq<char>)
    requires
        !st.in_code,
        heading(trim(h)) is Some,
    ensures
        !format_step(st, h).ordered,
        !format_step(st, h).in_code,
        format_step(st, h).out == st.out.push(
            seq!['*', '*'] + heading(trim(h))->0 + seq!['*', '*'],
        ).push(Seq::empty()),
        bullet_item(trim(b)) is Some ==> format_step(format_step(st, h), b).out.last() == seq![
            '-',
            ' ',
        ] + bullet_item(trim(b))->0,
{
    crate::chars::lemma_trim_of_trim_end(h);
    crate::chars::lemma_trim_of_trim_end(b);
    let cl = trim(h);
    lemma_leading_count_bound(cl, '#');
    assert(leading_count(cl, '#') >= 1);
    assert(cl[0] == '#');
    assert(!starts_with(cl, fence())) by {
        if starts_with(cl, fence()) {
            assert(cl.take(3)[0] == cl[0]);
        }
    }
    if bullet_item(trim(b)) is Some {
        lemma_bullet_step(format_step(st, h), b);
    }
}

proof fn lemma_bullet_step(st: FormatState, b: Seq<char>)
    requires
        !st.in_code,
        bullet_item(trim(b)) is Some,
    ensures
        format_step(st, b) == (FormatState {
            out: st.out.push(
                (if st.ordered {
                    seq![' ', ' ']
                } else {
                    Seq::empty()
                }) + seq!['-', ' '] + bullet_item(trim(b))->0,
            ),
            ..st
        }),
{
    crate::chars::lemma_trim_of_trim_end(b);
    let cb = trim(b);
    crate::chars::lemma_trim_idempotent(b);
    assert(cb[1] == ' ') by {
        assert(cb.take(2)[1] == cb[1]);
    }
    assert(cb[0] == '-' || cb[0] == '*' || cb[0] == '+') by {
        assert(cb.take(2)[0] == cb[0]);
    }
    assert(!starts_with(cb, fence())) by {
        if starts_with(cb, fence()) {
            assert(cb.take(3)[0] == cb[0]);
        }
    }
    assert(leading_count(cb, '#') == 0);
    assert(heading(cb) is None);
    assert(!horizontal_rule(cb)) by {
        assert(trim(cb) == cb);
        if cb.len() >= 3 {
            assert(cb[1] != '-' && cb[1] != '*' && cb[1] != '_');
        }
    }
    assert(numbered_item(cb) is None) by {
        match find(cb, dot_space()) {
            Some(p) => {
                lemma_find_from(cb, dot_space(), 0);
                if p > 0 {
                    assert(cb.take(p)[0] == cb[0]);
                    assert(!is_ascii_digit(cb.take(p)[0]));
                }
            },
            None => {},
        }
    }
    assert(bullet_line(st.ordered, bullet_item(cb)->0) =~= (if st.ordered {
        seq![' ', ' ']
    } else {
        Seq::empty()
    }) + seq!['-', ' '] + bullet_item(cb)->0);
}

/// How the formatter treats each kind of line outside a code block: a
/// blank line or a horizontal rule becomes an empty line and ends a
/// numbered list; a numbered item keeps its number, `. ` and its trimmed
/// text and starts a numbered list; a bullet becomes `- ` and its text,
/// indented by two spaces inside a numbered list.
pub proof fn lemma_format_outside_code(st: FormatState, raw: Seq<char>)
    requires
        !st.in_code,
    ensures
        trim(raw).len() == 0 || horizontal_rule(trim(raw)) ==> format_step(st, raw) == (FormatState {
            out: st.out.push(Seq::empty()),
            in_code: false,
            ordered: false,
        }),
        numbered_item(trim(raw)) matches Some((number, text)) ==> format_step(st, raw) == (
        FormatState {
            out: st.out.push(number + seq!['.', ' '] + text),
            in_code: false,
            ordered: true,
        }),
        bullet_item(trim(raw)) is Some ==> format_step(st, raw) == (FormatState {
            out: st.out.push(
                (if st.ordered {
                    seq![' ', ' ']
                } else {
                    Seq::empty()
                }) + seq!['-', ' '] + bullet_item(trim(raw))->0,
            ),
            ..st
        }),
{
    crate::chars::lemma_trim_of_trim_end(raw);
    let cl = trim(raw);
    crate::chars::lemma_trim_idempotent(raw);
    if bullet_item(cl) is Some {
        lemma_bullet_step(st, raw);
    }
    if cl.len() > 0 && horizontal_rule(cl) {
        assert(trim(cl) == cl);
        assert(cl[0] == '-' || cl[0] == '*' || cl[0] == '_');
        assert(!starts_with(cl, fence())) by {
            if starts_with(cl, fence()) {
                assert(cl.take(3)[0] == cl[0]);
            }
        }
        assert(leading_count(cl, '#') == 0);
    }
    if numbered_item(cl) is Some {
        let p = find(cl, dot_space())->0;
        lemma_find_from(cl, dot_space(), 0);
        assert(cl.take(p)[0] == cl[0]);
        assert(is_ascii_digit(cl[0]));
        assert(!starts_with(cl, fence())) by {
            if starts_with(cl, fence()) {
                assert(cl.take(3)[0] == cl[0]);
            }
        }
        assert(leading_count(cl, '#') == 0);
        assert(!horizontal_rule(cl)) by {
            assert(trim(cl) == cl);
        }
    }
}

/// Inside a code block every line is kept with only its trailing white
/// space removed, and a fence line opens or closes the block.
pub proof fn lemma_format_code_lines(st: FormatState, raw: Seq<char>)
    ensures
        starts_with(trim(raw), seq!['`', '`', '`']) ==> format_step(st, raw) == (FormatState {
            out: st.out.push(trim_end(raw)),
            in_code: !st.in_code,
            ordered: st.ordered,
        }),
        st.in_code && !starts_with(trim(raw), seq!['`', '`', '`']) ==> format_step(st, raw) == (
        FormatState { out: st.out.push(trim_end(raw)), ..st }),
{
    crate::chars::lemma_trim_of_trim_end(raw);
}

} // verus!
