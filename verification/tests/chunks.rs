use yt_summarizer::chunks::{
    build_discord_messages, split_segment_by_words, split_summary_into_chunks,
};

#[test]
fn segment_split_at_spaces() {
    assert_eq!(split_segment_by_words("aaa bbb ccc", 7), vec!["aaa bbb", "ccc"]);
    assert_eq!(split_segment_by_words("abcdefghij", 4), vec!["abcd", "efgh", "ij"]);
    assert_eq!(split_segment_by_words("", 5), Vec::<String>::new());
    assert_eq!(split_segment_by_words("a  b", 10), vec!["a  b"]);
}

#[test]
fn segment_chunks_fit_limit() {
    let text = "lorem ipsum dolor sit amet consectetur adipiscing elit supercalifragilistic";
    for max in 1..20 {
        for chunk in split_segment_by_words(text, max) {
            assert!(chunk.chars().count() <= max);
        }
    }
}

#[test]
fn summary_chunks_of_empty_text() {
    assert_eq!(split_summary_into_chunks("", 10), vec![""]);
    assert_eq!(split_summary_into_chunks("  \r\n ", 10), vec![""]);
}

#[test]
fn summary_chunks_break_at_lines() {
    assert_eq!(
        split_summary_into_chunks("Line one\nLine two", 10),
        vec!["Line one", "Line two"]
    );
    assert_eq!(
        split_summary_into_chunks("Line one\nLine two", 100),
        vec!["Line one\nLine two"]
    );
    assert_eq!(
        split_summary_into_chunks("First one. Second one.", 12),
        vec!["First one.", "Second one."]
    );
}

#[test]
fn summary_chunks_fit_limit() {
    let text = "Alpha beta gamma. Delta epsilon zeta!\nEta theta iota kappa lambda mu nu xi omicron pi.\n\nRho";
    for max in 1..30 {
        let chunks = split_summary_into_chunks(text, max);
        assert!(!chunks.is_empty());
        for chunk in chunks {
            assert!(chunk.chars().count() <= max);
        }
    }
}

#[test]
fn single_discord_message() {
    assert_eq!(
        build_discord_messages("**T**", "Chan", "Video: u", "Short summary"),
        vec!["**T**\nChan\n\nShort summary\n\nVideo: u"]
    );
}

#[test]
fn several_discord_messages_fit_limit() {
    let summary = "word ".repeat(900);
    let messages = build_discord_messages("**Title**", "Channel", "Video: https://x", &summary);
    assert!(messages.len() >= 2);
    for m in &messages {
        assert!(m.chars().count() <= 2000);
    }
    assert!(messages[0].starts_with("**Title**\nChannel\n\n"));
    assert!(messages[messages.len() - 1].ends_with("\n\nVideo: https://x"));
}

#[test]
fn single_message_is_not_cut_to_fit_prefix_and_suffix() {
    let summary = "a".repeat(1985);
    let messages = build_discord_messages("**T**", "C", "Video: u", &summary);
    assert_eq!(messages.len(), 1);
    assert_eq!(messages[0].chars().count(), 2004);
}

#[test]
fn blank_summary_accepts_zero_limit() {
    assert_eq!(split_summary_into_chunks(" \r\n ", 0), vec![""]);
}

#[test]
fn chunks_keep_visible_text() {
    let visible = |s: &str| s.chars().filter(|c| !c.is_whitespace()).collect::<String>();
    let summary = "First point here.  Second   point follows! Third one?\r\n\r\nA verylongwordthatmustbecut and more words\nend";
    let chunks = split_summary_into_chunks(summary, 12);
    assert!(chunks.iter().all(|c| c.chars().count() <= 12));
    assert_eq!(visible(&chunks.concat()), visible(summary));
    let parts = split_segment_by_words("alpha beta  gammadeltaepsilon zeta", 6);
    assert!(parts.iter().all(|c| c.chars().count() <= 6));
    assert_eq!(visible(&parts.concat()), visible("alpha beta  gammadeltaepsilon zeta"));
}

#[test]
fn messages_keep_visible_text() {
    let visible = |s: &str| s.chars().filter(|c| !c.is_whitespace()).collect::<String>();
    let summary = "word ".repeat(900);
    let messages = build_discord_messages("**Title**", "Channel", "Video: https://youtu.be/x", &summary);
    assert!(messages.len() >= 2);
    assert!(messages.iter().all(|m| m.chars().count() <= 2000));
    let all = format!("**Title**Channel{}Video: https://youtu.be/x", summary);
    assert_eq!(visible(&messages.concat()), visible(&all));
}

#[test]
fn short_summary_is_one_fitting_message() {
    let messages = build_discord_messages("**T**", "C", "Video: u", "Short summary.");
    assert_eq!(messages, vec!["**T**\nC\n\nShort summary.\n\nVideo: u"]);
    assert!(messages[0].chars().count() <= 2000);
}

#[test]
fn spaces_only_segment_accepts_zero_limit() {
    assert_eq!(split_segment_by_words("   ", 0), Vec::<String>::new());
    assert_eq!(split_segment_by_words("", 0), Vec::<String>::new());
}
