//! Breaking a one-paragraph text into one sentence per line.
use vstd::prelude::*;

use crate::chars::{
    lemma_strip_ws_add, lemma_strip_ws_blank, lemma_strip_ws_char, lemma_strip_ws_empty,
    strip_ws, str_views,
    chars_eq, copy_range, from_chars, is_alpha, is_ascii_alnum, is_ascii_alpha, is_ascii_digit,
    is_ascii_upper, is_digit, is_whitespace, is_ws, lower, to_chars, to_lower,
};

verus! {

/// `.`, `!` and `?` end a sentence.
pub open spec fn is_terminator(c: char) -> bool {
    c == '.' || c == '!' || c == '?'
}

/// A character that may begin a sentence: an ASCII capital or digit, or an
/// opening quote or bracket.
pub open spec fn starts_sentence(c: char) -> bool {
    is_ascii_upper(c) || is_ascii_digit(c) || c == '"' || c == '\'' || c == '(' || c == '['
}

/// A character that belongs to the word before a terminator.
pub open spec fn in_word(c: char) -> bool {
    is_ascii_alnum(c) || c == '.'
}

/// Whether `ch` may begin a sentence.
pub fn is_sentence_start(ch: char) -> (res: bool)
    ensures
        res == starts_sentence(ch),
{
    ('A' <= ch && ch <= 'Z') || is_digit(ch) || ch == '"' || ch == '\'' || ch == '(' || ch == '['
}

/// Whether `ch` belongs to the word before a terminator.
pub fn is_word_char(ch: char) -> (res: bool)
    ensures
        res == in_word(ch),
{
    is_alpha(ch) || is_digit(ch) || ch == '.'
}

/// Abbreviations whose final dot does not end a sentence (lowercase).
pub open spec fn abbreviation_list() -> Seq<Seq<char>> {
    str_views(
        seq![
            "mr.", "mrs.", "ms.", "dr.", "prof.", "sr.", "jr.", "st.", "vs.", "etc.", "e.g.", "i.e.",
            "cf.", "al.", "a.m.", "p.m.", "jan.", "feb.", "mar.", "apr.", "jun.", "jul.", "aug.",
            "sep.", "sept.", "oct.", "nov.", "dec.", "no.", "fig.", "eq.", "vol.", "rev.", "gen.",
            "gov.", "sen.", "rep.", "dept.", "univ.", "inc.", "ltd.", "co.", "corp.", "bros.",
            "approx.", "est.", "min.", "sec.", "hr.", "fr.", "bzw.", "z.b.", "d.h.", "u.a.", "u.u.",
            "i.d.r.", "ca.", "ggf.", "vgl.", "evtl.", "sog.", "u.s.w.", "nr.", "abs.", "art.", "s.",
            "ff.", "mio.", "mrd.", "sek.", "okt.", "dez.",
        ],
    )
}

/// Words whose final `!` or `?` does not end a sentence (lowercase).
pub open spec fn non_terminal_list() -> Seq<Seq<char>> {
    str_views(seq!["yahoo!", "jeopardy!", "wii!", "o2!", "who?"])
}

fn abbreviation_strs() -> (res: Vec<&'static str>)
    ensures
        str_views(res@) == abbreviation_list(),
{
    let res = vec![
        "mr.", "mrs.", "ms.", "dr.", "prof.", "sr.", "jr.", "st.", "vs.", "etc.", "e.g.", "i.e.",
        "cf.", "al.", "a.m.", "p.m.", "jan.", "feb.", "mar.", "apr.", "jun.", "jul.", "aug.",
        "sep.", "sept.", "oct.", "nov.", "dec.", "no.", "fig.", "eq.", "vol.", "rev.", "gen.",
        "gov.", "sen.", "rep.", "dept.", "univ.", "inc.", "ltd.", "co.", "corp.", "bros.",
        "approx.", "est.", "min.", "sec.", "hr.", "fr.", "bzw.", "z.b.", "d.h.", "u.a.", "u.u.",
        "i.d.r.", "ca.", "ggf.", "vgl.", "evtl.", "sog.", "u.s.w.", "nr.", "abs.", "art.", "s.",
        "ff.", "mio.", "mrd.", "sek.", "okt.", "dez.",
    ];
    assert(str_views(res@) =~= abbreviation_list());
    res
}

fn non_terminal_strs() -> (res: Vec<&'static str>)
    ensures
        str_views(res@) == non_terminal_list(),
{
    let res = vec!["yahoo!", "jeopardy!", "wii!", "o2!", "who?"];
    assert(str_views(res@) =~= non_terminal_list());
    res
}

/// Whether `token` is one of `list`.
fn listed(token: &[char], list: &Vec<&'static str>) -> (res: bool)
    ensures
        res == str_views(list@).contains(token@),
{
    let mut k: usize = 0;
    while k < list.len()
        invariant
            k <= list@.len(),
            forall|j: int| 0 <= j < k ==> str_views(list@)[j] != token@,
        decreases list@.len() - k,
    {
        let entry = to_chars(list[k]);
        if chars_eq(entry.as_slice(), token) {
            assert(str_views(list@)[k as int] == token@);
            return true;
        }
        k = k + 1;
    }
    false
}

/// Whether `token` is an abbreviation whose dot does not end a sentence.
pub fn is_abbreviation(token: &str) -> (res: bool)
    ensures
        res == abbreviation_list().contains(token@),
{
    let list = abbreviation_strs();
    let cs = to_chars(token);
    listed(cs.as_slice(), &list)
}

/// Whether `token` is a word whose `!` or `?` does not end a sentence.
pub fn is_non_terminal_punctuation_token(token: &str) -> (res: bool)
    ensures
        res == non_terminal_list().contains(token@),
{
    let list = non_terminal_strs();
    let cs = to_chars(token);
    listed(cs.as_slice(), &list)
}

/// The first position at or after `k` that holds no white space (or the end).
pub open spec fn skip_ws_from(s: Seq<char>, k: int) -> int
    decreases s.len() - k,
{
    if 0 <= k < s.len() && is_ws(s[k]) {
        skip_ws_from(s, k + 1)
    } else {
        k
    }
}

pub proof fn lemma_skip_ws_from(s: Seq<char>, k: int)
    requires
        0 <= k <= s.len(),
    ensures
        k <= skip_ws_from(s, k) <= s.len(),
        forall|j: int| k <= j < skip_ws_from(s, k) ==> is_ws(#[trigger] s[j]),
        skip_ws_from(s, k) < s.len() ==> !is_ws(s[skip_ws_from(s, k)]),
    decreases s.len() - k,
{
    if k < s.len() && is_ws(s[k]) {
        lemma_skip_ws_from(s, k + 1);
    }
}

/// Where the word that ends at position `i` begins: the run of word
/// characters right before `i` is skipped.
pub open spec fn word_start(s: Seq<char>, i: int) -> int
    decreases i,
{
    if 0 < i <= s.len() && in_word(s[i - 1]) {
        word_start(s, i - 1)
    } else {
        i
    }
}

pub proof fn lemma_word_start(s: Seq<char>, i: int)
    requires
        0 <= i <= s.len(),
    ensures
        0 <= word_start(s, i) <= i,
    decreases i,
{
    if 0 < i && in_word(s[i - 1]) {
        lemma_word_start(s, i - 1);
    }
}

/// The lowercased word that ends with the terminator at position `i`.
pub open spec fn token_at(s: Seq<char>, i: int) -> Seq<char> {
    lower(s.subrange(word_start(s, i), i + 1))
}

/// Whether a line break goes after position `i`: the character there ends a
/// sentence, white space follows, the next non-space character starts a
/// sentence, and the terminator is not part of an initialism (`U. S.`), an
/// abbreviation (`Dr.`) or a name such as `Yahoo!`.
pub open spec fn breaks_after(s: Seq<char>, i: int) -> bool {
    let ch = s[i];
    let k = skip_ws_from(s, i + 1);
    &&& 0 <= i
    &&& is_terminator(ch)
    &&& i + 1 < s.len()
    &&& is_ws(s[i + 1])
    &&& k < s.len()
    &&& starts_sentence(s[k])
    &&& !(ch == '.' && i > 0 && is_ascii_alpha(s[i - 1]) && k + 1 < s.len() && s[k + 1] == '.')
    &&& !(ch == '.' && abbreviation_list().contains(token_at(s, i)))
    &&& !((ch == '!' || ch == '?') && non_terminal_list().contains(token_at(s, i)))
}

/// The text from position `i` on, with a line break in place of the white
/// space after every sentence end.
pub open spec fn with_breaks_from(s: Seq<char>, i: int) -> Seq<char>
    decreases s.len() - i,
{
    if i < 0 || i >= s.len() {
        Seq::empty()
    } else if breaks_after(s, i) {
        proof {
            lemma_skip_ws_from(s, i + 1);
        }
        seq![s[i], '\n'] + with_breaks_from(s, skip_ws_from(s, i + 1))
    } else {
        seq![s[i]] + with_breaks_from(s, i + 1)
    }
}

/// The text with a line break in place of the white space after every
/// sentence end.
pub open spec fn with_sentence_breaks(s: Seq<char>) -> Seq<char> {
    with_breaks_from(s, 0)
}

/// Decides whether a line break goes after position `i`, and if so where the
/// next sentence begins.
fn break_after(cs: &[char], i: usize) -> (res: (bool, usize))
    requires
        i < cs@.len(),
    ensures
        res.0 == breaks_after(cs@, i as int),
        res.0 ==> res.1 == skip_ws_from(cs@, i + 1),
{
    let n = cs.len();
    let ch = cs[i];
    if !(ch == '.' || ch == '!' || ch == '?') {
        return (false, 0);
    }
    if i + 1 >= n || !is_whitespace(cs[i + 1]) {
        return (false, 0);
    }
    let mut k = i + 1;
    while k < n && is_whitespace(cs[k])
        invariant
            i + 1 <= k <= n == cs@.len(),
            skip_ws_from(cs@, k as int) == skip_ws_from(cs@, i + 1),
        decreases n - k,
    {
        k = k + 1;
    }
    if k >= n || !is_sentence_start(cs[k]) {
        return (false, 0);
    }
    if ch == '.' && i > 0 && is_alpha(cs[i - 1]) && k + 1 < n && cs[k + 1] == '.' {
        return (false, 0);
    }
    let mut j = i;
    while j > 0 && is_word_char(cs[j - 1])
        invariant
            j <= i < n == cs@.len(),
            word_start(cs@, j as int) == word_start(cs@, i as int),
        decreases j,
    {
        j = j - 1;
    }
    let word = copy_range(cs, j, i + 1);
    let token = to_lower(word.as_slice());
    assert(token@ == token_at(cs@, i as int));
    if ch == '.' && listed(token.as_slice(), &abbreviation_strs()) {
        return (false, 0);
    }
    if (ch == '!' || ch == '?') && listed(token.as_slice(), &non_terminal_strs()) {
        return (false, 0);
    }
    (true, k)
}

/// `cs` with a line break in place of the white space after every sentence
/// end.
pub fn insert_sentence_line_break_chars(cs: &[char]) -> (res: Vec<char>)
    ensures
        res@ == with_sentence_breaks(cs@),
{
    let n = cs.len();
    let mut out: Vec<char> = Vec::new();
    let mut i: usize = 0;
    while i < n
        invariant
            i <= n == cs@.len(),
            out@ + with_breaks_from(cs@, i as int) == with_sentence_breaks(cs@),
        decreases n - i,
    {
        let ch = cs[i];
        let (brk, k) = break_after(cs, i);
        out.push(ch);
        if brk {
            out.push('\n');
            proof {
                lemma_skip_ws_from(cs@, i + 1);
            }
            assert(out@ + with_breaks_from(cs@, k as int) =~= with_sentence_breaks(cs@));
            i = k;
        } else {
            assert(out@ + with_breaks_from(cs@, i + 1) =~= with_sentence_breaks(cs@));
            i = i + 1;
        }
    }
    assert(with_breaks_from(cs@, n as int) == Seq::<char>::empty());
    assert(out@ =~= with_sentence_breaks(cs@));
    out
}

/// `text` with a line break in place of the white space after every sentence
/// end.
pub fn insert_sentence_line_breaks(text: &str) -> (res: String)
    ensures
        res@ == with_sentence_breaks(text@),
{
    let cs = to_chars(text);
    let r = insert_sentence_line_break_chars(cs.as_slice());
    from_chars(r.as_slice())
}

/// A text with no `.`, `!` or `?` is left as it is.
pub proof fn lemma_no_terminator_unchanged(s: Seq<char>)
    requires
        forall|j: int| 0 <= j < s.len() ==> !is_terminator(#[trigger] s[j]),
    ensures
        with_sentence_breaks(s) == s,
{
    lemma_no_terminator_from(s, 0);
    assert(s.skip(0) =~= s);
}

proof fn lemma_no_terminator_from(s: Seq<char>, i: int)
    requires
        0 <= i <= s.len(),
        forall|j: int| 0 <= j < s.len() ==> !is_terminator(#[trigger] s[j]),
    ensures
        with_breaks_from(s, i) == s.skip(i),
    decreases s.len() - i,
{
    if i < s.len() {
        assert(!is_terminator(s[i]));
        lemma_no_terminator_from(s, i + 1);
        assert(seq![s[i]] + s.skip(i + 1) =~= s.skip(i));
    } else {
        assert(s.skip(i) =~= Seq::<char>::empty());
    }
}

/// Breaking a text into sentence lines changes only white space: the
/// characters that are not white space stay, in order, and the text gets no
/// longer.
pub proof fn lemma_sentence_breaks_keep_text(s: Seq<char>)
    ensures
        strip_ws(with_sentence_breaks(s)) == strip_ws(s),
        with_sentence_breaks(s).len() <= s.len(),
{
    lemma_breaks_keep_text_from(s, 0);
    assert(s.skip(0) =~= s);
}

proof fn lemma_breaks_keep_text_from(s: Seq<char>, i: int)
    requires
        0 <= i <= s.len(),
    ensures
        strip_ws(with_breaks_from(s, i)) == strip_ws(s.skip(i)),
        with_breaks_from(s, i).len() <= s.len() - i,
    decreases s.len() - i,
{
    if i == s.len() {
        lemma_strip_ws_empty();
        assert(s.skip(i) =~= Seq::<char>::empty());
    } else if breaks_after(s, i) {
        let k = skip_ws_from(s, i + 1);
        lemma_skip_ws_from(s, i + 1);
        lemma_breaks_keep_text_from(s, k);
        let gap = s.subrange(i + 1, k);
        assert(s.skip(i) =~= seq![s[i]] + gap + s.skip(k));
        assert forall|j: int| 0 <= j < gap.len() implies is_ws(#[trigger] gap[j]) by {
            assert(gap[j] == s[i + 1 + j]);
        }
        lemma_strip_ws_blank(gap);
        lemma_strip_ws_add(seq![s[i]] + gap, s.skip(k));
        lemma_strip_ws_add(seq![s[i]], gap);
        lemma_strip_ws_char(s[i]);
        lemma_strip_ws_char('\n');
        let rest = with_breaks_from(s, k);
        assert(seq![s[i], '\n'] + rest =~= seq![s[i]] + seq!['\n'] + rest);
        lemma_strip_ws_add(seq![s[i]] + seq!['\n'], rest);
        lemma_strip_ws_add(seq![s[i]], seq!['\n']);
        assert(seq![s[i]] + Seq::<char>::empty() =~= seq![s[i]]);
    } else {
        lemma_breaks_keep_text_from(s, i + 1);
        assert(s.skip(i) =~= seq![s[i]] + s.skip(i + 1));
        lemma_strip_ws_add(seq![s[i]], s.skip(i + 1));
        lemma_strip_ws_add(seq![s[i]], with_breaks_from(s, i + 1));
    }
}

// ---------------------------------------------------------------------------
// What breaking lines replaces
// ---------------------------------------------------------------------------

/// `s` from position `i` on, with the white space that follows each position
/// in `at` replaced by a single line break; every other character is kept.
pub open spec fn runs_replaced_from(s: Seq<char>, at: Set<int>, i: int) -> Seq<char>
    decreases s.len() - i,
{
    if i < 0 || i >= s.len() {
        Seq::empty()
    } else if at.contains(i) {
        proof {
            lemma_skip_ws_from(s, i + 1);
        }
        seq![s[i], '\n'] + runs_replaced_from(s, at, skip_ws_from(s, i + 1))
    } else {
        seq![s[i]] + runs_replaced_from(s, at, i + 1)
    }
}

/// The positions after which a line break goes.
pub open spec fn sentence_ends(s: Seq<char>) -> Set<int> {
    Set::new(|i: int| breaks_after(s, i))
}

/// Position `i` ends a sentence and is followed by a whole run of white
/// space (at least one character, up to the next character that is not
/// white space) that ends where a sentence starts.
pub open spec fn gap_after_sentence(s: Seq<char>, i: int) -> bool {
    let k = skip_ws_from(s, i + 1);
    &&& 0 <= i
    &&& is_terminator(s[i])
    &&& i + 1 < k < s.len()
    &&& forall|j: int| i < j < k ==> is_ws(#[trigger] s[j])
    &&& !is_ws(s[k])
    &&& starts_sentence(s[k])
}

proof fn lemma_breaks_replace_from(s: Seq<char>, i: int)
    ensures
        with_breaks_from(s, i) == runs_replaced_from(s, sentence_ends(s), i),
    decreases s.len() - i,
{
    if 0 <= i < s.len() {
        lemma_skip_ws_from(s, i + 1);
        if breaks_after(s, i) {
            assert(sentence_ends(s).contains(i));
            lemma_breaks_replace_from(s, skip_ws_from(s, i + 1));
        } else {
            assert(!sentence_ends(s).contains(i));
            lemma_breaks_replace_from(s, i + 1);
        }
    }
}

/// Breaking a text into sentence lines replaces whole white-space runs,
/// each by a single line break, and only runs that lie between the end of a
/// sentence (`.`, `!` or `?`) and the start of the next; every other
/// character is kept in order.
pub proof fn lemma_sentence_breaks_shape(s: Seq<char>)
    ensures
        with_sentence_breaks(s) == runs_replaced_from(s, sentence_ends(s), 0),
        forall|i: int| #[trigger] sentence_ends(s).contains(i) ==> gap_after_sentence(s, i),
{
    lemma_breaks_replace_from(s, 0);
    assert forall|i: int| #[trigger] sentence_ends(s).contains(i) implies gap_after_sentence(
        s,
        i,
    ) by {
        assert(breaks_after(s, i));
        lemma_skip_ws_from(s, i + 1);
        lemma_skip_ws_from(s, i + 2);
        assert(skip_ws_from(s, i + 1) == skip_ws_from(s, i + 2));
        assert forall|j: int| i < j < skip_ws_from(s, i + 1) implies is_ws(#[trigger] s[j]) by {
        }
    }
}

// ---------------------------------------------------------------------------
// Breaking lines twice
// ---------------------------------------------------------------------------

/// Where the line-breaking pass goes after position `p`.
spec fn next_pos(s: Seq<char>, p: int) -> int {
    if breaks_after(s, p) {
        skip_ws_from(s, p + 1)
    } else {
        p + 1
    }
}

/// Whether the line-breaking pass, started at `i`, passes through `t`.
spec fn reaches(s: Seq<char>, i: int, t: int) -> bool
    decreases s.len() - i,
{
    if i == t {
        true
    } else if i < 0 || i >= s.len() || t < i {
        false
    } else {
        proof {
            lemma_skip_ws_from(s, i + 1);
        }
        reaches(s, next_pos(s, i), t)
    }
}

proof fn lemma_breaks_shape(s: Seq<char>, t: int)
    requires
        0 <= t < s.len(),
    ensures
        with_breaks_from(s, t).len() >= 1,
        with_breaks_from(s, t)[0] == s[t],
        t < next_pos(s, t) <= s.len(),
        breaks_after(s, t) ==> with_breaks_from(s, t) == seq![s[t], '\n'] + with_breaks_from(
            s,
            next_pos(s, t),
        ),
        !breaks_after(s, t) ==> with_breaks_from(s, t) == seq![s[t]] + with_breaks_from(
            s,
            next_pos(s, t),
        ),
{
    lemma_skip_ws_from(s, t + 1);
}

proof fn lemma_breaks_end(s: Seq<char>, t: int)
    requires
        t >= s.len(),
    ensures
        with_breaks_from(s, t) == Seq::<char>::empty(),
{
}

proof fn lemma_reaches_suffix(s: Seq<char>, i: int, t: int)
    requires
        0 <= i <= s.len(),
        reaches(s, i, t),
    ensures
        i <= t <= s.len(),
        with_breaks_from(s, t).len() <= with_breaks_from(s, i).len(),
        with_breaks_from(s, i).skip(
            with_breaks_from(s, i).len() - with_breaks_from(s, t).len(),
        ) == with_breaks_from(s, t),
    decreases s.len() - i,
{
    let a = with_breaks_from(s, i);
    if i == t {
        assert(a.skip(0) =~= a);
    } else {
        lemma_breaks_shape(s, i);
        let n = next_pos(s, i);
        lemma_reaches_suffix(s, n, t);
        let b = with_breaks_from(s, n);
        let c = with_breaks_from(s, t);
        assert(a.skip(a.len() - c.len()) =~= b.skip(b.len() - c.len()));
    }
}

proof fn lemma_reaches_trans(s: Seq<char>, i: int, t: int, u: int)
    requires
        0 <= i <= s.len(),
        reaches(s, i, t),
        reaches(s, t, u),
    ensures
        reaches(s, i, u),
    decreases s.len() - i,
{
    lemma_reaches_suffix(s, i, t);
    lemma_reaches_suffix(s, t, u);
    if i != t {
        lemma_breaks_shape(s, i);
        lemma_reaches_trans(s, next_pos(s, i), t, u);
    }
}

proof fn lemma_reaches_step(s: Seq<char>, t: int)
    requires
        0 <= t < s.len(),
        reaches(s, 0, t),
    ensures
        reaches(s, 0, next_pos(s, t)),
{
    lemma_breaks_shape(s, t);
    assert(reaches(s, next_pos(s, t), next_pos(s, t)));
    assert(reaches(s, t, next_pos(s, t)));
    lemma_reaches_trans(s, 0, t, next_pos(s, t));
}

proof fn lemma_reaches_pred(s: Seq<char>, i: int, t: int)
    requires
        0 <= i <= s.len(),
        reaches(s, i, t),
        i < t,
    ensures
        exists|p: int| i <= p < t && reaches(s, i, p) && #[trigger] next_pos(s, p) == t,
    decreases s.len() - i,
{
    lemma_breaks_shape(s, i);
    let n = next_pos(s, i);
    if n == t {
        assert(reaches(s, i, i));
    } else {
        lemma_reaches_suffix(s, n, t);
        lemma_reaches_pred(s, n, t);
        let p = choose|p: int| n <= p < t && reaches(s, n, p) && #[trigger] next_pos(s, p) == t;
        assert(reaches(s, i, p));
    }
}

/// Where the text that the pass makes from `t` on begins in its output.
spec fn out_pos(s: Seq<char>, t: int) -> int {
    with_breaks_from(s, 0).len() - with_breaks_from(s, t).len()
}

proof fn lemma_out_at(s: Seq<char>, t: int)
    requires
        0 <= t <= s.len(),
        reaches(s, 0, t),
    ensures
        0 <= out_pos(s, t) <= with_breaks_from(s, 0).len(),
        with_breaks_from(s, 0).skip(out_pos(s, t)) == with_breaks_from(s, t),
        forall|q: int|
            0 <= q < with_breaks_from(s, t).len() ==> with_breaks_from(s, 0)[out_pos(s, t) + q]
                == #[trigger] with_breaks_from(s, t)[q],
        out_pos(s, t) == with_breaks_from(s, 0).len() <==> t == s.len(),
{
    lemma_reaches_suffix(s, 0, t);
    let r = with_breaks_from(s, 0);
    let j = out_pos(s, t);
    assert forall|q: int| 0 <= q < with_breaks_from(s, t).len() implies r[j + q]
        == #[trigger] with_breaks_from(s, t)[q] by {
        assert(r.skip(j)[q] == r[j + q]);
    }
    if t < s.len() {
        lemma_breaks_shape(s, t);
    } else {
        lemma_breaks_end(s, t);
    }
}

/// What comes just before the output of a visited position `t > 0`: the
/// character before `t`, or a line break that stands for white space.
proof fn lemma_out_before(s: Seq<char>, t: int)
    requires
        0 < t <= s.len(),
        reaches(s, 0, t),
    ensures
        out_pos(s, t) >= 1,
        ({
            let r = with_breaks_from(s, 0);
            let j = out_pos(s, t);
            ||| reaches(s, 0, t - 1) && !breaks_after(s, t - 1) && out_pos(s, t - 1) == j - 1
                && r[j - 1] == s[t - 1]
            ||| r[j - 1] == '\n' && is_ws(s[t - 1])
        }),
{
    lemma_reaches_pred(s, 0, t);
    let p = choose|p: int| 0 <= p < t && reaches(s, 0, p) && #[trigger] next_pos(s, p) == t;
    lemma_breaks_shape(s, p);
    lemma_out_at(s, p);
    lemma_out_at(s, t);
    let r = with_breaks_from(s, 0);
    let wp = with_breaks_from(s, p);
    if breaks_after(s, p) {
        assert(wp[1] == '\n');
        assert(r[out_pos(s, p) + 1] == wp[1]);
        lemma_skip_ws_from(s, p + 1);
        assert(is_ws(s[t - 1]));
    } else {
        assert(r[out_pos(s, p) + 0] == wp[0]);
    }
}

proof fn lemma_out_word(s: Seq<char>, u: int)
    requires
        0 <= u < s.len(),
        reaches(s, 0, u),
    ensures
        ({
            let r = with_breaks_from(s, 0);
            let j = out_pos(s, u);
            &&& word_start(r, j) == j - (u - word_start(s, u))
            &&& r.subrange(word_start(r, j), j + 1) == s.subrange(word_start(s, u), u + 1)
        }),
    decreases u,
{
    let r = with_breaks_from(s, 0);
    let j = out_pos(s, u);
    lemma_out_at(s, u);
    lemma_breaks_shape(s, u);
    assert(r[j + 0] == with_breaks_from(s, u)[0]);
    lemma_word_start(s, u);
    if u > 0 && in_word(s[u - 1]) {
        lemma_out_before(s, u);
        lemma_out_word(s, u - 1);
        lemma_word_start(r, j - 1);
        assert(r.subrange(word_start(r, j), j + 1) =~= r.subrange(word_start(r, j - 1), j).push(
            r[j],
        ));
        assert(s.subrange(word_start(s, u), u + 1) =~= s.subrange(word_start(s, u - 1), u).push(
            s[u],
        ));
    } else {
        if u > 0 {
            lemma_out_before(s, u);
        } else {
            assert(j == 0);
        }
        assert(word_start(r, j) == j);
        assert(r.subrange(j, j + 1) =~= seq![r[j]]);
        assert(s.subrange(u, u + 1) =~= seq![s[u]]);
    }
}

proof fn lemma_skip_ws_to(r: Seq<char>, a: int, b: int)
    requires
        0 <= a <= b <= r.len(),
        forall|q: int| a <= q < b ==> is_ws(#[trigger] r[q]),
        b < r.len() ==> !is_ws(r[b]),
    ensures
        skip_ws_from(r, a) == b,
    decreases b - a,
{
    if a < b {
        lemma_skip_ws_to(r, a + 1, b);
    }
}

proof fn lemma_out_gap(s: Seq<char>, t: int, p: int)
    requires
        0 <= t < s.len(),
        reaches(s, 0, t),
        !breaks_after(s, t),
        t + 1 <= p <= skip_ws_from(s, t + 1),
        t + 1 <= s.len(),
    ensures
        reaches(s, 0, p),
        out_pos(s, p) == out_pos(s, t) + (p - t),
        forall|q: int|
            out_pos(s, t) + 1 <= q < out_pos(s, p) ==> is_ws(#[trigger] with_breaks_from(s, 0)[q]),
    decreases p - t,
{
    lemma_breaks_shape(s, t);
    lemma_reaches_step(s, t);
    lemma_skip_ws_from(s, t + 1);
    lemma_out_at(s, t);
    if p > t + 1 {
        lemma_out_gap(s, t, p - 1);
        let m = p - 1;
        assert(is_ws(s[m]));
        assert(!is_terminator(s[m])) by {
            if is_terminator(s[m]) {
                assert(!is_ws(s[m]));
            }
        }
        lemma_breaks_shape(s, m);
        lemma_reaches_step(s, m);
        lemma_out_at(s, m);
        assert(with_breaks_from(s, 0)[out_pos(s, m) + 0] == with_breaks_from(s, m)[0]);
    }
}

proof fn lemma_out_breaks(s: Seq<char>, t: int)
    requires
        0 <= t < s.len(),
        reaches(s, 0, t),
    ensures
        breaks_after(with_breaks_from(s, 0), out_pos(s, t)) == breaks_after(s, t),
        breaks_after(s, t) ==> skip_ws_from(with_breaks_from(s, 0), out_pos(s, t) + 1)
            == out_pos(s, skip_ws_from(s, t + 1)),
{
    let r = with_breaks_from(s, 0);
    let j = out_pos(s, t);
    lemma_out_at(s, t);
    lemma_breaks_shape(s, t);
    let w = with_breaks_from(s, t);
    assert(r[j + 0] == w[0]);
    lemma_skip_ws_from(s, t + 1);
    if !is_terminator(s[t]) {
    } else if t + 1 >= s.len() {
        lemma_breaks_end(s, t + 1);
        assert(j + 1 >= r.len());
    } else {
        assert(r[j + 1] == w[1]);
        if breaks_after(s, t) {
            assert(w[1] == '\n');
        } else {
            lemma_breaks_shape(s, t + 1);
            assert(w[1] == s[t + 1]);
        }
        if is_ws(s[t + 1]) {
            let k = skip_ws_from(s, t + 1);
            lemma_reaches_step(s, t);
            if breaks_after(s, t) {
                lemma_out_at(s, k);
                assert(out_pos(s, k) == j + 2);
                lemma_breaks_shape(s, k);
                assert(r[out_pos(s, k) + 0] == with_breaks_from(s, k)[0]);
                lemma_skip_ws_to(r, j + 1, j + 2);
            } else {
                lemma_out_gap(s, t, k);
                lemma_out_at(s, k);
                if k < s.len() {
                    lemma_breaks_shape(s, k);
                    assert(r[out_pos(s, k) + 0] == with_breaks_from(s, k)[0]);
                }
                lemma_skip_ws_to(r, j + 1, out_pos(s, k));
            }
            let kr = out_pos(s, k);
            assert(skip_ws_from(r, j + 1) == kr);
            lemma_out_at(s, k);
            if k < s.len() {
                lemma_breaks_shape(s, k);
                let wk = with_breaks_from(s, k);
                assert(r[kr + 0] == wk[0]);
                if breaks_after(s, k) {
                    assert(r[kr + 1] == wk[1]);
                } else if k + 1 < s.len() {
                    lemma_breaks_shape(s, k + 1);
                    assert(r[kr + 1] == wk[1]);
                } else {
                    lemma_breaks_end(s, k + 1);
                }
            }
            if t > 0 {
                lemma_out_before(s, t);
            } else {
                assert(j == 0);
            }
            lemma_out_word(s, t);
            assert(token_at(r, j) == token_at(s, t));
        }
    }
}

proof fn lemma_breaks_again_from(s: Seq<char>, t: int)
    requires
        0 <= t <= s.len(),
        reaches(s, 0, t),
    ensures
        with_breaks_from(with_breaks_from(s, 0), out_pos(s, t)) == with_breaks_from(s, t),
    decreases s.len() - t,
{
    let r = with_breaks_from(s, 0);
    lemma_out_at(s, t);
    let j = out_pos(s, t);
    if t == s.len() {
        lemma_breaks_end(s, t);
        lemma_breaks_end(r, j);
    } else {
        lemma_breaks_shape(s, t);
        lemma_out_breaks(s, t);
        lemma_reaches_step(s, t);
        let n = next_pos(s, t);
        lemma_breaks_again_from(s, n);
        lemma_out_at(s, n);
        let w = with_breaks_from(s, t);
        assert(r[j + 0] == w[0]);
        if breaks_after(s, t) {
            assert(out_pos(s, n) == j + 2);
        } else {
            assert(out_pos(s, n) == j + 1);
        }
    }
}

/// Breaking lines a second time changes nothing: the line breaks already
/// stand after every sentence end, and no new sentence end appears.
pub proof fn lemma_sentence_breaks_idempotent(s: Seq<char>)
    ensures
        with_sentence_breaks(with_sentence_breaks(s)) == with_sentence_breaks(s),
{
    assert(reaches(s, 0, 0));
    lemma_breaks_again_from(s, 0);
    assert(out_pos(s, 0) == 0);
}

proof fn lemma_reaches_visible(s: Seq<char>, t: int, u: int)
    requires
        0 <= t <= u < s.len(),
        reaches(s, 0, t),
        !is_ws(s[u]),
    ensures
        reaches(s, 0, u),
    decreases u - t,
{
    if t < u {
        lemma_breaks_shape(s, t);
        lemma_reaches_step(s, t);
        let n = next_pos(s, t);
        if breaks_after(s, t) {
            lemma_skip_ws_from(s, t + 1);
            assert(n <= u) by {
                if n > u {
                    assert(is_ws(s[u]));
                }
            }
        }
        lemma_reaches_visible(s, n, u);
    }
}

proof fn lemma_cancel_right(a: Seq<char>, b: Seq<char>, c: Seq<char>)
    requires
        a + c == b + c,
    ensures
        a == b,
{
    assert((a + c).len() == a.len() + c.len());
    assert((b + c).len() == b.len() + c.len());
    assert(a.len() == b.len());
    assert forall|x: int| 0 <= x < a.len() implies a[x] == b[x] by {
        assert((a + c)[x] == a[x]);
        assert((b + c)[x] == b[x]);
    }
    assert(a =~= b);
}

/// A `.`, `!` or `?` followed by white space and then a character that may
/// start a sentence (a capital, a digit, an opening quote or bracket) ends a
/// sentence, unless its word is an abbreviation, part of an initialism or a
/// listed name such as `Yahoo!`: the white space after it becomes a line
/// break, placed right after the same visible text as in the input.
pub proof fn lemma_sentence_end_breaks(s: Seq<char>, i: int, k: int)
    requires
        0 <= i,
        i + 1 < k < s.len(),
        s[i] == '.' || s[i] == '!' || s[i] == '?',
        forall|j: int| i < j < k ==> is_ws(#[trigger] s[j]),
        !is_ws(s[k]),
        ('A' <= s[k] <= 'Z') || ('0' <= s[k] <= '9') || s[k] == '"' || s[k] == '\'' || s[k]
            == '(' || s[k] == '[',
        s[i] == '.' ==> !abbreviation_list().contains(token_at(s, i)),
        s[i] == '.' ==> !(i > 0 && is_ascii_alpha(s[i - 1]) && k + 1 < s.len() && s[k + 1]
            == '.'),
        s[i] != '.' ==> !non_terminal_list().contains(token_at(s, i)),
    ensures
        sentence_ends(s).contains(i),
        exists|j: int|
            0 <= j && j + 3 <= with_sentence_breaks(s).len() && #[trigger] with_sentence_breaks(
                s,
            ).subrange(j, j + 3) == seq![s[i], '\n', s[k]] && strip_ws(
                with_sentence_breaks(s).take(j),
            ) == strip_ws(s.take(i)),
{
    lemma_skip_ws_to(s, i + 1, k);
    assert(breaks_after(s, i));
    let r = with_sentence_breaks(s);
    assert(reaches(s, 0, 0));
    lemma_reaches_visible(s, 0, i);
    lemma_out_at(s, i);
    lemma_breaks_shape(s, i);
    lemma_breaks_shape(s, k);
    let j = out_pos(s, i);
    let w = with_breaks_from(s, i);
    assert(w[0] == s[i] && w[1] == '\n' && w[2] == s[k]);
    assert(r[j + 0] == w[0] && r[j + 1] == w[1] && r[j + 2] == w[2]);
    assert(r.subrange(j, j + 3) =~= seq![s[i], '\n', s[k]]);
    lemma_sentence_breaks_keep_text(s);
    lemma_breaks_keep_text_from(s, i);
    assert(r =~= r.take(j) + w);
    lemma_strip_ws_add(r.take(j), w);
    assert(s =~= s.take(i) + s.skip(i));
    lemma_strip_ws_add(s.take(i), s.skip(i));
    lemma_cancel_right(strip_ws(r.take(j)), strip_ws(s.take(i)), strip_ws(w));
}

/// Position `i` holds `.`, `!` or `?`, white space runs from `i + 1` up to
/// `k`, and `k` holds a character that may start a sentence (a capital, a
/// digit, an opening quote or bracket); the word before `i` is not an
/// abbreviation or part of an initialism (for `.`) or a listed name such as
/// `Yahoo!` (for `!` and `?`).
pub open spec fn sentence_end_before(s: Seq<char>, i: int, k: int) -> bool {
    &&& 0 <= i
    &&& i + 1 < k < s.len()
    &&& (s[i] == '.' || s[i] == '!' || s[i] == '?')
    &&& forall|j: int| i < j < k ==> is_ws(#[trigger] s[j])
    &&& !is_ws(s[k])
    &&& (('A' <= s[k] <= 'Z') || ('0' <= s[k] <= '9') || s[k] == '"' || s[k] == '\'' || s[k]
        == '(' || s[k] == '[')
    &&& (s[i] == '.' ==> !abbreviation_list().contains(token_at(s, i)))
    &&& (s[i] == '.' ==> !(i > 0 && is_ascii_alpha(s[i - 1]) && k + 1 < s.len() && s[k + 1]
        == '.'))
    &&& (s[i] != '.' ==> !non_terminal_list().contains(token_at(s, i)))
}

/// A line break goes after position `i` exactly when `i` ends a sentence
/// in the sense of `sentence_end_before`.
pub proof fn lemma_sentence_ends_exact(s: Seq<char>, i: int)
    ensures
        sentence_ends(s).contains(i) <==> exists|k: int| #[trigger]
            sentence_end_before(s, i, k),
{
    if sentence_ends(s).contains(i) {
        assert(breaks_after(s, i));
        let k = skip_ws_from(s, i + 1);
        lemma_skip_ws_from(s, i + 1);
        lemma_skip_ws_from(s, i + 2);
        assert(k == skip_ws_from(s, i + 2));
        assert(sentence_end_before(s, i, k));
    }
    if exists|k: int| #[trigger] sentence_end_before(s, i, k) {
        let k = choose|k: int| #[trigger] sentence_end_before(s, i, k);
        lemma_sentence_end_breaks(s, i, k);
    }
}

} // verus!
