use yt_summarizer::sentences::{
    insert_sentence_line_breaks, is_abbreviation, is_non_terminal_punctuation_token,
    is_sentence_start, is_word_char,
};
use yt_summarizer::text::{
    char_len, find_first_tag, limit_chars, normalize_newlines, remove_think_blocks, skip_chars,
    take_chars,
};

#[test]
fn char_len_counts_characters_not_bytes() {
    assert_eq!(char_len("héllo"), 5);
    assert_eq!(char_len(""), 0);
    assert_eq!(char_len("日本語"), 3);
}

#[test]
fn take_chars_keeps_prefix() {
    assert_eq!(take_chars("abcdef", 3), "abc");
    assert_eq!(take_chars("ab", 5), "ab");
    assert_eq!(take_chars("日本語", 2), "日本");
    assert_eq!(take_chars("abc", 0), "");
}

#[test]
fn skip_chars_drops_prefix() {
    assert_eq!(skip_chars("abcdef", 2), "cdef");
    assert_eq!(skip_chars("abc", 7), "");
    assert_eq!(skip_chars("日本語", 1), "本語");
}

#[test]
fn limit_chars_adds_ellipsis_when_cut() {
    assert_eq!(limit_chars("hello world", 8), "hello...");
    assert_eq!(limit_chars("hello", 5), "hello");
    assert_eq!(limit_chars("hello", 2), "he");
    assert_eq!(limit_chars("hello", 3), "hel");
    assert_eq!(limit_chars("hello!", 4), "h...");
}

#[test]
fn limit_chars_never_exceeds_limit() {
    for max in 0..12 {
        let out = limit_chars("a fairly long line of text", max);
        assert!(char_len(&out) <= max);
    }
}

#[test]
fn normalize_newlines_turns_crlf_and_cr_into_lf() {
    assert_eq!(normalize_newlines("a\r\nb\rc\n"), "a\nb\nc\n");
    assert_eq!(normalize_newlines("\r\r\n"), "\n\n");
    assert_eq!(normalize_newlines("plain"), "plain");
}

#[test]
fn normalize_newlines_is_idempotent_and_removes_cr() {
    let once = normalize_newlines("x\r\r\ny\rz");
    assert!(!once.contains('\r'));
    assert_eq!(normalize_newlines(&once), once);
}

#[test]
fn find_first_tag_picks_earliest_occurrence() {
    assert_eq!(
        find_first_tag("x<thinking>y<think>", &["<think>", "<thinking>"]),
        Some((1, 10))
    );
    assert_eq!(find_first_tag("ab<think>", &["<think>", "<thinking>"]), Some((2, 7)));
    assert_eq!(find_first_tag("nothing here", &["<think>"]), None);
    assert_eq!(find_first_tag("é<think>", &["<think>"]), Some((2, 7)));
    assert_eq!(find_first_tag("<thinking>", &["<think>", "<thinking>"]), Some((0, 10)));
}

#[test]
fn remove_think_blocks_drops_reasoning() {
    assert_eq!(remove_think_blocks("Hi <think>secret</think>there"), "Hi there");
    assert_eq!(remove_think_blocks("<thinking>x</thinking>Y"), "Y");
    assert_eq!(remove_think_blocks("A<think>b"), "A");
    assert_eq!(remove_think_blocks("a<think>1</think>b<think>2</thinking>c"), "abc");
    assert_eq!(remove_think_blocks("no tags"), "no tags");
}

#[test]
fn remove_think_blocks_never_grows() {
    let input = "x<think>y</think>z<thinking>w";
    assert!(char_len(&remove_think_blocks(input)) <= char_len(input));
}

#[test]
fn sentence_start_characters() {
    assert!(is_sentence_start('A'));
    assert!(is_sentence_start('7'));
    assert!(is_sentence_start('('));
    assert!(is_sentence_start('"'));
    assert!(!is_sentence_start('a'));
    assert!(!is_sentence_start('-'));
}

#[test]
fn word_characters() {
    assert!(is_word_char('.'));
    assert!(is_word_char('z'));
    assert!(is_word_char('5'));
    assert!(!is_word_char('-'));
    assert!(!is_word_char(' '));
}

#[test]
fn abbreviation_lookup() {
    assert!(is_abbreviation("dr."));
    assert!(is_abbreviation("z.b."));
    assert!(!is_abbreviation("Dr."));
    assert!(!is_abbreviation("world."));
}

#[test]
fn non_terminal_punctuation_lookup() {
    assert!(is_non_terminal_punctuation_token("who?"));
    assert!(is_non_terminal_punctuation_token("yahoo!"));
    assert!(!is_non_terminal_punctuation_token("wow!"));
}

#[test]
fn sentence_breaks_follow_sentence_ends() {
    assert_eq!(
        insert_sentence_line_breaks("Hello world. This is it! Dr. Smith came. Yahoo! Great"),
        "Hello world.\nThis is it!\nDr. Smith came.\nYahoo! Great"
    );
}

#[test]
fn sentence_breaks_skip_initialisms_and_lowercase() {
    assert_eq!(
        insert_sentence_line_breaks("The U. S. Army came. it was late."),
        "The U. S. Army came. it was late."
    );
    assert_eq!(insert_sentence_line_breaks("Done.   Next"), "Done.\nNext");
    assert_eq!(insert_sentence_line_breaks("End."), "End.");
}

#[test]
fn sentence_breaks_leave_text_without_terminators() {
    let text = "no sentence end here, just words";
    assert_eq!(insert_sentence_line_breaks(text), text);
}

#[test]
fn sentence_breaks_change_only_white_space() {
    let visible = |s: &str| s.chars().filter(|c| !c.is_whitespace()).collect::<String>();
    let text = "One sentence.   Two here!\tThree? four stays. 5 starts";
    let r = insert_sentence_line_breaks(text);
    assert_eq!(r, "One sentence.\nTwo here!\nThree? four stays.\n5 starts");
    assert_eq!(visible(&r), visible(text));
    assert!(r.chars().count() <= text.chars().count());
}

#[test]
fn sentence_breaks_twice_are_breaks_once() {
    let text = "Dr. Smith arrived. He said hi!  Yahoo! Then 3 more. The U. S. team won? Yes.";
    let once = insert_sentence_line_breaks(text);
    assert_eq!(insert_sentence_line_breaks(&once), once);
}

#[test]
fn sentence_breaks_replace_whole_runs_only() {
    assert_eq!(insert_sentence_line_breaks("End. \t \n Next"), "End.\nNext");
    assert_eq!(insert_sentence_line_breaks("End.  next"), "End.  next");
    assert_eq!(insert_sentence_line_breaks("a  b. C"), "a  b.\nC");
}
