//! Character-level text primitives.
//!
//! Text is modelled as `Seq<char>` (the view of `str` and `String`), and the
//! executable helpers here work on `Vec<char>` / `[char]`.  Each helper is
//! proved against a spec function that states the behaviour of the matching
//! operation on `str` (`trim`, `lines`, `split`, `split_whitespace`, ...).
use vstd::prelude::*;

verus! {

// ---------------------------------------------------------------------------
// Conversions between strings and character vectors
// ---------------------------------------------------------------------------

/// Appends one character to a `String` (std's `String::push`).
#[verifier::external_body]
pub(crate) fn push_char(s: &mut String, c: char)
    ensures
        final(s)@ == old(s)@.push(c),
{
    s.push(c);
}

/// The characters of `text`, in order.
pub fn to_chars(text: &str) -> (res: Vec<char>)
    ensures
        res@ == text@,
{
    let mut res: Vec<char> = Vec::new();
    for c in it: text.chars()
        invariant
            res@ == it.seq().take(it.index() as int),
            it.seq() == text@,
    {
        res.push(c);
    }
    res
}

/// A `String` holding the given characters.
pub fn from_chars(cs: &[char]) -> (res: String)
    ensures
        res@ == cs@,
{
    let mut res = String::new();
    let mut i: usize = 0;
    while i < cs.len()
        invariant
            i <= cs@.len(),
            res@ == cs@.take(i as int),
        decreases cs@.len() - i,
    {
        push_char(&mut res, cs[i]);
        assert(cs@.take(i as int + 1) == cs@.take(i as int).push(cs@[i as int]));
        i = i + 1;
    }
    assert(cs@.take(cs@.len() as int) == cs@);
    res
}

/// A copy of `cs[from..to]`.
pub fn copy_range(cs: &[char], from: usize, to: usize) -> (res: Vec<char>)
    requires
        from <= to <= cs@.len(),
    ensures
        res@ == cs@.subrange(from as int, to as int),
{
    let mut res: Vec<char> = Vec::new();
    let mut i: usize = from;
    while i < to
        invariant
            from <= i <= to <= cs@.len(),
            res@ == cs@.subrange(from as int, i as int),
        decreases to - i,
    {
        res.push(cs[i]);
        assert(cs@.subrange(from as int, i + 1) == cs@.subrange(from as int, i as int).push(
            cs@[i as int],
        ));
        i = i + 1;
    }
    res
}

/// Appends all of `src` to `dst`.
pub fn push_all(dst: &mut Vec<char>, src: &[char])
    ensures
        final(dst)@ == old(dst)@ + src@,
{
    let mut i: usize = 0;
    while i < src.len()
        invariant
            i <= src@.len(),
            dst@ == old(dst)@ + src@.take(i as int),
        decreases src@.len() - i,
    {
        dst.push(src[i]);
        assert(src@.take(i as int + 1) == src@.take(i as int).push(src@[i as int]));
        i = i + 1;
    }
    assert(src@.take(src@.len() as int) == src@);
}

/// Whether two character sequences are equal.
pub fn chars_eq(a: &[char], b: &[char]) -> (res: bool)
    ensures
        res == (a@ == b@),
{
    if a.len() != b.len() {
        return false;
    }
    let mut i: usize = 0;
    while i < a.len()
        invariant
            a@.len() == b@.len(),
            i <= a@.len(),
            forall|j: int| 0 <= j < i ==> a@[j] == b@[j],
        decreases a@.len() - i,
    {
        if a[i] != b[i] {
            return false;
        }
        i = i + 1;
    }
    assert(a@ =~= b@);
    true
}

// ---------------------------------------------------------------------------
// Character classes
// ---------------------------------------------------------------------------

/// Unicode `White_Space`, the class that `char::is_whitespace` tests.
pub open spec fn is_ws(c: char) -> bool {
    ||| '\t' <= c <= '\r'
    ||| c == ' '
    ||| c == '\u{85}'
    ||| c == '\u{a0}'
    ||| c == '\u{1680}'
    ||| '\u{2000}' <= c <= '\u{200a}'
    ||| c == '\u{2028}'
    ||| c == '\u{2029}'
    ||| c == '\u{202f}'
    ||| c == '\u{205f}'
    ||| c == '\u{3000}'
}

/// Whether `c` is white space (`char::is_whitespace`).
pub fn is_whitespace(c: char) -> (res: bool)
    ensures
        res == is_ws(c),
{
    ('\t' <= c && c <= '\r') || c == ' ' || c == '\u{85}' || c == '\u{a0}' || c == '\u{1680}'
        || ('\u{2000}' <= c && c <= '\u{200a}') || c == '\u{2028}' || c == '\u{2029}' || c
        == '\u{202f}' || c == '\u{205f}' || c == '\u{3000}'
}

pub open spec fn is_ascii_upper(c: char) -> bool {
    'A' <= c <= 'Z'
}

pub open spec fn is_ascii_lower(c: char) -> bool {
    'a' <= c <= 'z'
}

pub open spec fn is_ascii_digit(c: char) -> bool {
    '0' <= c <= '9'
}

pub open spec fn is_ascii_alpha(c: char) -> bool {
    is_ascii_upper(c) || is_ascii_lower(c)
}

pub open spec fn is_ascii_alnum(c: char) -> bool {
    is_ascii_alpha(c) || is_ascii_digit(c)
}

/// `char::to_ascii_lowercase`.
pub open spec fn lower_char(c: char) -> char {
    if is_ascii_upper(c) {
        ((c as u32) + 32) as char
    } else {
        c
    }
}

/// `str::to_ascii_lowercase`.
pub open spec fn lower(s: Seq<char>) -> Seq<char> {
    s.map_values(|c: char| lower_char(c))
}

pub fn is_digit(c: char) -> (res: bool)
    ensures
        res == is_ascii_digit(c),
{
    '0' <= c && c <= '9'
}

pub fn is_alpha(c: char) -> (res: bool)
    ensures
        res == is_ascii_alpha(c),
{
    ('A' <= c && c <= 'Z') || ('a' <= c && c <= 'z')
}

/// The ASCII lowercase of `c`.
pub fn to_lower_char(c: char) -> (res: char)
    ensures
        res == lower_char(c),
{
    if 'A' <= c && c <= 'Z' {
        let b: u8 = c as u8;
        assert(b as u32 == c as u32);
        let r = (b + 32) as char;
        assert(r == ((c as u32) + 32) as char);
        r
    } else {
        c
    }
}

/// The ASCII lowercase of `cs`.
pub fn to_lower(cs: &[char]) -> (res: Vec<char>)
    ensures
        res@ == lower(cs@),
{
    let mut res: Vec<char> = Vec::new();
    let mut i: usize = 0;
    while i < cs.len()
        invariant
            i <= cs@.len(),
            res@ == lower(cs@.take(i as int)),
        decreases cs@.len() - i,
    {
        let c = to_lower_char(cs[i]);
        res.push(c);
        assert(lower(cs@.take(i as int + 1)) =~= lower(cs@.take(i as int)).push(c));
        i = i + 1;
    }
    assert(cs@.take(cs@.len() as int) == cs@);
    res
}

// ---------------------------------------------------------------------------
// Trimming
// ---------------------------------------------------------------------------

/// `str::trim_start`: leading white space removed.
pub open spec fn trim_start(s: Seq<char>) -> Seq<char>
    decreases s.len(),
{
    if s.len() > 0 && is_ws(s[0]) {
        trim_start(s.drop_first())
    } else {
        s
    }
}

/// `str::trim_end`: trailing white space removed.
pub open spec fn trim_end(s: Seq<char>) -> Seq<char>
    decreases s.len(),
{
    if s.len() > 0 && is_ws(s.last()) {
        trim_end(s.drop_last())
    } else {
        s
    }
}

/// `str::trim`: leading and trailing white space removed.
pub open spec fn trim(s: Seq<char>) -> Seq<char> {
    trim_end(trim_start(s))
}

/// Whether `s` is empty once trimmed.
pub open spec fn is_blank(s: Seq<char>) -> bool {
    trim(s).len() == 0
}

proof fn lemma_trim_start_skip(s: Seq<char>, i: int)
    requires
        0 <= i <= s.len(),
        forall|j: int| 0 <= j < i ==> is_ws(s[j]),
    ensures
        trim_start(s) == trim_start(s.skip(i)),
    decreases i,
{
    if i > 0 {
        assert(s.drop_first().skip(i - 1) =~= s.skip(i));
        lemma_trim_start_skip(s.drop_first(), i - 1);
    } else {
        assert(s.skip(0) =~= s);
    }
}

proof fn lemma_trim_end_take(s: Seq<char>, i: int)
    requires
        0 <= i <= s.len(),
        forall|j: int| i <= j < s.len() ==> is_ws(s[j]),
    ensures
        trim_end(s) == trim_end(s.take(i)),
    decreases s.len() - i,
{
    if i < s.len() {
        assert(s.drop_last().take(i) =~= s.take(i));
        lemma_trim_end_take(s.drop_last(), i);
    } else {
        assert(s.take(i) =~= s);
    }
}

/// Trimming twice is trimming once.
pub proof fn lemma_trim_idempotent(s: Seq<char>)
    ensures
        trim(trim(s)) == trim(s),
        trim_end(trim_end(s)) == trim_end(s),
        trim_start(trim_start(s)) == trim_start(s),
        trim(s).len() <= s.len(),
        trim_end(s).len() <= s.len(),
        trim_start(s).len() <= s.len(),
{
    lemma_trim_start_fixed(s);
    lemma_trim_end_fixed(s);
    lemma_trim_end_fixed(trim_start(s));
    lemma_trim_start_of_trim_end(trim_start(s));
}

proof fn lemma_trim_start_fixed(s: Seq<char>)
    ensures
        trim_start(trim_start(s)) == trim_start(s),
        trim_start(s).len() <= s.len(),
        trim_start(s).len() > 0 ==> !is_ws(trim_start(s)[0]),
        trim_start(s) == s.skip(s.len() - trim_start(s).len()),
    decreases s.len(),
{
    if s.len() > 0 && is_ws(s[0]) {
        lemma_trim_start_fixed(s.drop_first());
        assert(s.drop_first().skip(s.drop_first().len() - trim_start(s).len()) =~= s.skip(
            s.len() - trim_start(s).len(),
        ));
    } else {
        assert(s.skip(0) =~= s);
    }
}

proof fn lemma_trim_end_fixed(s: Seq<char>)
    ensures
        trim_end(trim_end(s)) == trim_end(s),
        trim_end(s).len() <= s.len(),
        trim_end(s).len() > 0 ==> !is_ws(trim_end(s).last()),
        trim_end(s) == s.take(trim_end(s).len() as int),
    decreases s.len(),
{
    if s.len() > 0 && is_ws(s.last()) {
        lemma_trim_end_fixed(s.drop_last());
        assert(s.drop_last().take(trim_end(s).len() as int) =~= s.take(
            trim_end(s).len() as int,
        ));
    } else {
        assert(s.take(s.len() as int) =~= s);
    }
}

proof fn lemma_trim_start_of_trim_end(s: Seq<char>)
    requires
        s.len() > 0 ==> !is_ws(s[0]),
    ensures
        trim_start(trim_end(s)) == trim_end(s),
{
    lemma_trim_end_fixed(s);
    let t = trim_end(s);
    if t.len() > 0 {
        assert(t[0] == s[0]);
    }
}

proof fn lemma_trim_start_all_ws(s: Seq<char>)
    requires
        forall|i: int| 0 <= i < s.len() ==> is_ws(#[trigger] s[i]),
    ensures
        trim_start(s).len() == 0,
    decreases s.len(),
{
    if s.len() > 0 {
        assert forall|i: int| 0 <= i < s.drop_first().len() implies is_ws(
            #[trigger] s.drop_first()[i],
        ) by {
            assert(s.drop_first()[i] == s[i + 1]);
        }
        lemma_trim_start_all_ws(s.drop_first());
    }
}

proof fn lemma_trim_start_push(s: Seq<char>, c: char)
    requires
        exists|i: int| 0 <= i < s.len() && !is_ws(#[trigger] s[i]),
    ensures
        trim_start(s.push(c)) == trim_start(s).push(c),
    decreases s.len(),
{
    if is_ws(s[0]) {
        let t = s.drop_first();
        let i = choose|i: int| 0 <= i < s.len() && !is_ws(#[trigger] s[i]);
        assert(i > 0);
        assert(t[i - 1] == s[i]);
        assert(s.push(c).drop_first() =~= t.push(c));
        lemma_trim_start_push(t, c);
    }
}

/// Trimming a text with its trailing white space already removed is
/// trimming the text.
pub proof fn lemma_trim_of_trim_end(s: Seq<char>)
    ensures
        trim(trim_end(s)) == trim(s),
    decreases s.len(),
{
    if s.len() > 0 && is_ws(s.last()) {
        let d = s.drop_last();
        lemma_trim_of_trim_end(d);
        assert(s =~= d.push(s.last()));
        if exists|i: int| 0 <= i < d.len() && !is_ws(#[trigger] d[i]) {
            lemma_trim_start_push(d, s.last());
            assert(trim_start(s) == trim_start(d).push(s.last()));
            assert(trim_start(d).push(s.last()).drop_last() =~= trim_start(d));
        } else {
            assert forall|i: int| 0 <= i < s.len() implies is_ws(#[trigger] s[i]) by {
                if i < d.len() {
                    assert(s[i] == d[i]);
                }
            }
            lemma_trim_start_all_ws(s);
            lemma_trim_start_all_ws(d);
        }
    }
}

/// The length of the text once trailing white space is removed.
pub fn trim_end_len(cs: &[char]) -> (res: usize)
    ensures
        res <= cs@.len(),
        cs@.take(res as int) == trim_end(cs@),
{
    let n = cs.len();
    let mut b: usize = n;
    while b > 0 && is_whitespace(cs[b - 1])
        invariant
            b <= n == cs@.len(),
            forall|j: int| b <= j < n ==> is_ws(cs@[j]),
        decreases b,
    {
        b = b - 1;
    }
    proof {
        lemma_trim_end_take(cs@, b as int);
    }
    b
}

/// The bounds `(a, b)` with `cs[a..b]` equal to the trimmed text.
pub fn trim_bounds(cs: &[char]) -> (res: (usize, usize))
    ensures
        res.0 <= res.1 <= cs@.len(),
        cs@.subrange(res.0 as int, res.1 as int) == trim(cs@),
        cs@.subrange(res.0 as int, cs@.len() as int) == trim_start(cs@),
{
    let n = cs.len();
    let mut a: usize = 0;
    while a < n && is_whitespace(cs[a])
        invariant
            a <= n == cs@.len(),
            forall|j: int| 0 <= j < a ==> is_ws(cs@[j]),
        decreases n - a,
    {
        a = a + 1;
    }
    proof {
        lemma_trim_start_skip(cs@, a as int);
        assert(cs@.skip(a as int) =~= cs@.subrange(a as int, n as int));
    }
    let mut b: usize = n;
    while b > a && is_whitespace(cs[b - 1])
        invariant
            a <= b <= n == cs@.len(),
            forall|j: int| b <= j < n ==> is_ws(cs@[j]),
        decreases b,
    {
        b = b - 1;
    }
    proof {
        let ts = cs@.subrange(a as int, n as int);
        assert(trim_start(ts) == ts);
        lemma_trim_end_take(ts, b - a);
        assert(ts.take(b - a) =~= cs@.subrange(a as int, b as int));
    }
    (a, b)
}

/// The trimmed text.
pub fn trim_chars(cs: &[char]) -> (res: Vec<char>)
    ensures
        res@ == trim(cs@),
{
    let (a, b) = trim_bounds(cs);
    copy_range(cs, a, b)
}

/// The text with trailing white space removed.
pub fn trim_end_chars(cs: &[char]) -> (res: Vec<char>)
    ensures
        res@ == trim_end(cs@),
{
    let b = trim_end_len(cs);
    copy_range(cs, 0, b)
}

/// Whether the text is empty once trimmed.
pub fn blank(cs: &[char]) -> (res: bool)
    ensures
        res == is_blank(cs@),
{
    let (a, b) = trim_bounds(cs);
    a == b
}

// ---------------------------------------------------------------------------
// The visible text
// ---------------------------------------------------------------------------

/// The characters of `s` that are not white space, in order.
pub open spec fn strip_ws(s: Seq<char>) -> Seq<char> {
    s.filter(|c: char| !is_ws(c))
}

/// The visible text of two texts in a row is theirs in a row.
pub proof fn lemma_strip_ws_add(a: Seq<char>, b: Seq<char>)
    ensures
        strip_ws(a + b) == strip_ws(a) + strip_ws(b),
{
    broadcast use Seq::filter_distributes_over_add;

}

/// One character is visible exactly when it is not white space.
pub proof fn lemma_strip_ws_char(c: char)
    ensures
        strip_ws(seq![c]) == (if is_ws(c) {
            Seq::<char>::empty()
        } else {
            seq![c]
        }),
{
    reveal_with_fuel(Seq::<_>::filter, 2);
    assert(seq![c].drop_last() =~= Seq::<char>::empty());
}

/// The empty text has no visible text.
pub proof fn lemma_strip_ws_empty()
    ensures
        strip_ws(Seq::<char>::empty()) == Seq::<char>::empty(),
{
    reveal_with_fuel(Seq::<_>::filter, 1);
}

/// Text made only of white space has no visible text.
pub proof fn lemma_strip_ws_blank(s: Seq<char>)
    requires
        forall|i: int| 0 <= i < s.len() ==> is_ws(#[trigger] s[i]),
    ensures
        strip_ws(s) == Seq::<char>::empty(),
    decreases s.len(),
{
    if s.len() == 0 {
        lemma_strip_ws_empty();
    } else {
        lemma_strip_ws_blank(s.drop_last());
        assert(s =~= s.drop_last() + seq![s.last()]);
        lemma_strip_ws_add(s.drop_last(), seq![s.last()]);
        lemma_strip_ws_char(s.last());
        assert(strip_ws(s) =~= Seq::<char>::empty());
    }
}

/// Trimming keeps the visible text, and a blank text has none.
pub proof fn lemma_strip_ws_trim(s: Seq<char>)
    ensures
        strip_ws(trim_end(s)) == strip_ws(s),
        strip_ws(trim_start(s)) == strip_ws(s),
        strip_ws(trim(s)) == strip_ws(s),
        trim(s).len() == 0 ==> strip_ws(s) == Seq::<char>::empty(),
{
    lemma_strip_ws_trim_end(s);
    lemma_strip_ws_trim_start(s);
    lemma_strip_ws_trim_end(trim_start(s));
    if trim(s).len() == 0 {
        lemma_strip_ws_empty();
        assert(trim(s) =~= Seq::<char>::empty());
    }
}

proof fn lemma_strip_ws_trim_end(s: Seq<char>)
    ensures
        strip_ws(trim_end(s)) == strip_ws(s),
    decreases s.len(),
{
    if s.len() > 0 && is_ws(s.last()) {
        lemma_strip_ws_trim_end(s.drop_last());
        assert(s =~= s.drop_last() + seq![s.last()]);
        lemma_strip_ws_add(s.drop_last(), seq![s.last()]);
        lemma_strip_ws_char(s.last());
        assert(strip_ws(s) =~= strip_ws(s.drop_last()));
    }
}

proof fn lemma_strip_ws_trim_start(s: Seq<char>)
    ensures
        strip_ws(trim_start(s)) == strip_ws(s),
    decreases s.len(),
{
    if s.len() > 0 && is_ws(s[0]) {
        lemma_strip_ws_trim_start(s.drop_first());
        assert(s =~= seq![s[0]] + s.drop_first());
        lemma_strip_ws_add(seq![s[0]], s.drop_first());
        lemma_strip_ws_char(s[0]);
        assert(strip_ws(s) =~= strip_ws(s.drop_first()));
    }
}

/// Splitting at a white-space character keeps the visible text of the
/// pieces.
pub proof fn lemma_strip_ws_split(s: Seq<char>, sep: char)
    requires
        is_ws(sep),
    ensures
        strip_ws(split_on(s, sep).flatten()) == strip_ws(s),
    decreases s.len(),
{
    broadcast use Seq::lemma_flatten_push;

    if s.len() == 0 {
        let p = split_on(s, sep);
        assert(p.drop_first() =~= Seq::<Seq<char>>::empty());
        assert(p.flatten() =~= Seq::<char>::empty());
        assert(s =~= Seq::<char>::empty());
    } else {
        let p = split_on(s.drop_last(), sep);
        lemma_strip_ws_split(s.drop_last(), sep);
        lemma_split_on_len(s.drop_last(), sep);
        assert(s =~= s.drop_last() + seq![s.last()]);
        lemma_strip_ws_add(s.drop_last(), seq![s.last()]);
        lemma_strip_ws_char(s.last());
        if s.last() == sep {
            assert(p.push(Seq::<char>::empty()).flatten() =~= p.flatten());
        } else {
            let q = p.drop_last();
            assert(p =~= q.push(p.last()));
            assert(p.update(p.len() - 1, p.last().push(s.last())) =~= q.push(
                p.last().push(s.last()),
            ));
            assert(q.push(p.last().push(s.last())).flatten() =~= q.flatten() + p.last().push(
                s.last(),
            ));
            assert(p.flatten() =~= q.flatten() + p.last());
            assert(q.flatten() + p.last().push(s.last()) =~= p.flatten() + seq![s.last()]);
            lemma_strip_ws_add(p.flatten(), seq![s.last()]);
        }
    }
}

// ---------------------------------------------------------------------------
// Prefixes and searching
// ---------------------------------------------------------------------------

/// `str::starts_with` for a string pattern.
pub open spec fn starts_with(s: Seq<char>, p: Seq<char>) -> bool {
    p.len() <= s.len() && s.take(p.len() as int) == p
}

/// Whether `t` occurs in `s` starting at position `i`.
pub open spec fn occurs_at(s: Seq<char>, t: Seq<char>, i: int) -> bool {
    0 <= i && i + t.len() <= s.len() && s.subrange(i, i + t.len()) == t
}

/// The first position at or after `i` where `t` occurs in `s`.
pub open spec fn find_from(s: Seq<char>, t: Seq<char>, i: int) -> Option<int>
    decreases s.len() + 1 - i,
{
    if i < 0 || i + t.len() > s.len() {
        None
    } else if s.subrange(i, i + t.len()) == t {
        Some(i)
    } else {
        find_from(s, t, i + 1)
    }
}

/// `str::find`, counted in characters.
pub open spec fn find(s: Seq<char>, t: Seq<char>) -> Option<int> {
    find_from(s, t, 0)
}

/// `str::contains` for a string pattern.
pub open spec fn contains(s: Seq<char>, t: Seq<char>) -> bool {
    find(s, t) is Some
}

/// `find_from` gives the first occurrence, and `None` means there is none.
pub proof fn lemma_find_from(s: Seq<char>, t: Seq<char>, i: int)
    requires
        0 <= i,
    ensures
        find_from(s, t, i) matches Some(j) ==> i <= j && occurs_at(s, t, j) && forall|k: int|
            i <= k < j ==> !occurs_at(s, t, k),
        find_from(s, t, i) is None ==> forall|k: int| i <= k ==> !occurs_at(s, t, k),
    decreases s.len() + 1 - i,
{
    if i + t.len() > s.len() {
    } else if s.subrange(i, i + t.len()) == t {
    } else {
        lemma_find_from(s, t, i + 1);
    }
}

/// Whether `t` occurs in `s` at position `i`.
pub fn matches_at(s: &[char], t: &[char], i: usize) -> (res: bool)
    ensures
        res == occurs_at(s@, t@, i as int),
{
    if i > s.len() || t.len() > s.len() - i {
        return false;
    }
    let mut k: usize = 0;
    while k < t.len()
        invariant
            i + t@.len() <= s@.len(),
            s@.len() <= usize::MAX,
            k <= t@.len(),
            forall|j: int| 0 <= j < k ==> s@[i + j] == t@[j],
        decreases t@.len() - k,
    {
        if s[i + k] != t[k] {
            assert(s@.subrange(i as int, i + t@.len())[k as int] != t@[k as int]);
            return false;
        }
        k = k + 1;
    }
    assert(s@.subrange(i as int, i + t@.len()) =~= t@);
    true
}

/// Whether `s` starts with `p`.
pub fn has_prefix(s: &[char], p: &[char]) -> (res: bool)
    ensures
        res == starts_with(s@, p@),
{
    let r = matches_at(s, p, 0);
    assert(s@.subrange(0, p@.len() as int) =~= s@.take(p@.len() as int));
    r
}

/// The first position at or after `from` where `t` occurs in `s`.
pub fn find_chars(s: &[char], t: &[char], from: usize) -> (res: Option<usize>)
    ensures
        match res {
            Some(j) => find_from(s@, t@, from as int) == Some(j as int),
            None => find_from(s@, t@, from as int) is None,
        },
{
    if t.len() == 0 {
        if from <= s.len() {
            assert(s@.subrange(from as int, from as int) =~= t@);
            return Some(from);
        } else {
            return None;
        }
    }
    let mut i: usize = from;
    while i <= s.len() && t.len() <= s.len() - i
        invariant
            from <= i,
            t@.len() >= 1,
            find_from(s@, t@, from as int) == find_from(s@, t@, i as int),
        decreases s@.len() + 1 - i,
    {
        if matches_at(s, t, i) {
            return Some(i);
        }
        i = i + 1;
    }
    None
}

/// Whether `t` occurs in `s`.
pub fn contains_chars(s: &[char], t: &[char]) -> (res: bool)
    ensures
        res == contains(s@, t@),
{
    find_chars(s, t, 0).is_some()
}

/// Whether the character `c` occurs in `s`.
pub fn has_char(s: &[char], c: char) -> (res: bool)
    ensures
        res == s@.contains(c),
{
    let mut i: usize = 0;
    while i < s.len()
        invariant
            i <= s@.len(),
            forall|j: int| 0 <= j < i ==> s@[j] != c,
        decreases s@.len() - i,
    {
        if s[i] == c {
            return true;
        }
        i = i + 1;
    }
    false
}

// ---------------------------------------------------------------------------
// Splitting and joining
// ---------------------------------------------------------------------------

/// The character sequences held by a vector of character vectors.
pub open spec fn views(v: Seq<Vec<char>>) -> Seq<Seq<char>> {
    v.map_values(|x: Vec<char>| x@)
}

/// The character views of a list of string slices.
pub open spec fn str_views(list: Seq<&str>) -> Seq<Seq<char>> {
    list.map_values(|t: &str| t@)
}

/// `str::split` on one character: the pieces between separators, empty
/// pieces included; there is always at least one piece.
pub open spec fn split_on(s: Seq<char>, sep: char) -> Seq<Seq<char>>
    decreases s.len(),
{
    if s.len() == 0 {
        seq![Seq::empty()]
    } else {
        let p = split_on(s.drop_last(), sep);
        if s.last() == sep {
            p.push(Seq::empty())
        } else {
            p.update(p.len() - 1, p.last().push(s.last()))
        }
    }
}

pub proof fn lemma_split_on_len(s: Seq<char>, sep: char)
    ensures
        split_on(s, sep).len() >= 1,
    decreases s.len(),
{
    if s.len() > 0 {
        lemma_split_on_len(s.drop_last(), sep);
    }
}

/// Splits `cs` at every `sep`.
pub fn split_chars(cs: &[char], sep: char) -> (res: Vec<Vec<char>>)
    ensures
        views(res@) == split_on(cs@, sep),
{
    let mut done: Vec<Vec<char>> = Vec::new();
    let mut cur: Vec<char> = Vec::new();
    let mut i: usize = 0;
    assert(cs@.take(0) =~= Seq::<char>::empty());
    assert(views(done@).push(cur@) =~= split_on(cs@.take(0), sep));
    while i < cs.len()
        invariant
            i <= cs@.len(),
            views(done@).push(cur@) == split_on(cs@.take(i as int), sep),
        decreases cs@.len() - i,
    {
        let c = cs[i];
        let ghost old_done = views(done@);
        let ghost old_cur = cur@;
        assert(cs@.take(i as int + 1).drop_last() =~= cs@.take(i as int));
        if c == sep {
            let piece = cur;
            done.push(piece);
            cur = Vec::new();
            assert(views(done@) =~= old_done.push(old_cur));
            assert(views(done@).push(cur@) =~= split_on(cs@.take(i as int + 1), sep));
        } else {
            cur.push(c);
            assert(views(done@).push(cur@) =~= old_done.push(old_cur).update(
                old_done.len() as int,
                old_cur.push(c),
            ));
        }
        i = i + 1;
    }
    assert(cs@.take(cs@.len() as int) =~= cs@);
    done.push(cur);
    done
}

/// A line with one trailing carriage return removed, if it has one.
pub open spec fn strip_cr(l: Seq<char>) -> Seq<char> {
    if l.len() > 0 && l.last() == '\r' {
        l.drop_last()
    } else {
        l
    }
}

/// `str::lines`: the text split at `\n`, a `\r` right before a `\n` dropped,
/// and no empty last line after a final `\n` (a trailing `\r` with no `\n`
/// after it stays in the last line).
pub open spec fn lines(s: Seq<char>) -> Seq<Seq<char>> {
    let p = split_on(s, '\n');
    let terminated = p.drop_last().map_values(|l: Seq<char>| strip_cr(l));
    if s.len() == 0 || s.last() == '\n' {
        terminated
    } else {
        terminated.push(p.last())
    }
}

/// The lines of `cs`.
pub fn lines_of(cs: &[char]) -> (res: Vec<Vec<char>>)
    ensures
        views(res@) == lines(cs@),
{
    let pieces = split_chars(cs, '\n');
    proof {
        lemma_split_on_len(cs@, '\n');
    }
    let n = pieces.len();
    let mut res: Vec<Vec<char>> = Vec::new();
    let mut i: usize = 0;
    while i + 1 < n
        invariant
            n == views(pieces@).len() >= 1,
            views(pieces@) == split_on(cs@, '\n'),
            i < n,
            views(res@) == views(pieces@).take(i as int).map_values(
                |l: Seq<char>| strip_cr(l),
            ),
        decreases n - i,
    {
        let piece = &pieces[i];
        let ghost pv = views(pieces@)[i as int];
        assert(piece@ == pv);
        let m = piece.len();
        let line = if m > 0 && piece[m - 1] == '\r' {
            copy_range(piece.as_slice(), 0, m - 1)
        } else {
            copy_range(piece.as_slice(), 0, m)
        };
        assert(line@ =~= strip_cr(pv));
        let ghost before = views(res@);
        res.push(line);
        assert(views(pieces@).take(i as int + 1) =~= views(pieces@).take(i as int).push(
            pv,
        ));
        assert(views(res@) =~= before.push(strip_cr(pv)));
        assert(views(res@) =~= views(pieces@).take(i as int + 1).map_values(
            |l: Seq<char>| strip_cr(l),
        ));
        i = i + 1;
    }
    assert(views(pieces@).take(n - 1) =~= views(pieces@).drop_last());
    if cs.len() == 0 || cs[cs.len() - 1] == '\n' {
        res
    } else {
        let last = copy_range(pieces[n - 1].as_slice(), 0, pieces[n - 1].len());
        assert(last@ =~= views(pieces@).last());
        let ghost before = views(res@);
        res.push(last);
        assert(views(res@) =~= before.push(last@));
        res
    }
}

/// The pieces between white space characters (`str::split` on
/// `char::is_whitespace`), empty pieces included.
pub open spec fn split_ws(s: Seq<char>) -> Seq<Seq<char>>
    decreases s.len(),
{
    if s.len() == 0 {
        seq![Seq::empty()]
    } else {
        let p = split_ws(s.drop_last());
        if is_ws(s.last()) {
            p.push(Seq::empty())
        } else {
            p.update(p.len() - 1, p.last().push(s.last()))
        }
    }
}

pub proof fn lemma_split_ws_len(s: Seq<char>)
    ensures
        split_ws(s).len() >= 1,
    decreases s.len(),
{
    if s.len() > 0 {
        lemma_split_ws_len(s.drop_last());
    }
}

pub open spec fn nonempty(w: Seq<char>) -> bool {
    w.len() > 0
}

/// `str::split_whitespace`: the non-empty runs of non-white-space characters.
pub open spec fn words(s: Seq<char>) -> Seq<Seq<char>> {
    split_ws(s).filter(|w: Seq<char>| nonempty(w))
}

/// `parts` joined with `sep` between neighbours (`[T]::join`).
pub open spec fn join(parts: Seq<Seq<char>>, sep: Seq<char>) -> Seq<char>
    decreases parts.len(),
{
    if parts.len() == 0 {
        Seq::empty()
    } else if parts.len() == 1 {
        parts[0]
    } else {
        join(parts.drop_last(), sep) + sep + parts.last()
    }
}

proof fn lemma_filter_push(p: Seq<Seq<char>>, w: Seq<char>)
    ensures
        p.push(w).filter(|x: Seq<char>| nonempty(x)) == if nonempty(w) {
            p.filter(|x: Seq<char>| nonempty(x)).push(w)
        } else {
            p.filter(|x: Seq<char>| nonempty(x))
        },
{
    reveal_with_fuel(Seq::<_>::filter, 1);
    assert(p.push(w).drop_last() =~= p);
}

/// The words of `cs`.
pub fn words_of(cs: &[char]) -> (res: Vec<Vec<char>>)
    ensures
        views(res@) == words(cs@),
{
    let mut done: Vec<Vec<char>> = Vec::new();
    let mut cur: Vec<char> = Vec::new();
    let mut i: usize = 0;
    assert(cs@.take(0) =~= Seq::<char>::empty());
    proof {
        reveal_with_fuel(Seq::<_>::filter, 1);
        assert(split_ws(cs@.take(0)).drop_last() =~= Seq::<Seq<char>>::empty());
    }
    while i < cs.len()
        invariant
            i <= cs@.len(),
            split_ws(cs@.take(i as int)).len() >= 1,
            views(done@) == split_ws(cs@.take(i as int)).drop_last().filter(
                |x: Seq<char>| nonempty(x),
            ),
            cur@ == split_ws(cs@.take(i as int)).last(),
        decreases cs@.len() - i,
    {
        let c = cs[i];
        let ghost p = split_ws(cs@.take(i as int));
        let ghost old_done = views(done@);
        assert(cs@.take(i as int + 1).drop_last() =~= cs@.take(i as int));
        if is_whitespace(c) {
            proof {
                assert(split_ws(cs@.take(i as int + 1)) == p.push(Seq::empty()));
                assert(p.push(Seq::empty()).drop_last() =~= p);
                assert(p =~= p.drop_last().push(p.last()));
                lemma_filter_push(p.drop_last(), p.last());
            }
            if cur.len() > 0 {
                let piece = cur;
                done.push(piece);
                assert(views(done@) =~= old_done.push(p.last()));
            }
            cur = Vec::new();
        } else {
            cur.push(c);
            proof {
                let q = split_ws(cs@.take(i as int + 1));
                assert(q == p.update(p.len() - 1, p.last().push(c)));
                assert(q.drop_last() =~= p.drop_last());
            }
        }
        i = i + 1;
    }
    assert(cs@.take(cs@.len() as int) =~= cs@);
    proof {
        let p = split_ws(cs@);
        assert(p =~= p.drop_last().push(p.last()));
        lemma_filter_push(p.drop_last(), p.last());
    }
    if cur.len() > 0 {
        done.push(cur);
    }
    done
}

/// `parts` joined with `sep`.
pub fn join_chars(parts: &Vec<Vec<char>>, sep: &[char]) -> (res: Vec<char>)
    ensures
        res@ == join(views(parts@), sep@),
{
    let mut res: Vec<char> = Vec::new();
    let mut i: usize = 0;
    while i < parts.len()
        invariant
            i <= views(parts@).len(),
            res@ == join(views(parts@).take(i as int), sep@),
        decreases views(parts@).len() - i,
    {
        let ghost before = res@;
        if i > 0 {
            push_all(&mut res, sep);
        }
        push_all(&mut res, parts[i].as_slice());
        proof {
            let t = views(parts@).take(i as int + 1);
            assert(t.drop_last() =~= views(parts@).take(i as int));
            assert(parts[i as int]@ == views(parts@)[i as int]);
            if i == 0 {
                assert(views(parts@).take(0) =~= Seq::<Seq<char>>::empty());
                assert(res@ =~= t[0]);
            } else {
                assert(res@ =~= before + sep@ + t.last());
            }
        }
        i = i + 1;
    }
    assert(views(parts@).take(views(parts@).len() as int) =~= views(parts@));
    res
}

} // verus!
