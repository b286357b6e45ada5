use yt_summarizer::markdown::{
    collapse_blank_lines, collapse_inline_whitespace, format_summary_for_discord,
    is_horizontal_rule, parse_bullet_list, parse_markdown_heading, parse_numbered_list,
};

#[test]
fn heading_lines() {
    assert_eq!(parse_markdown_heading("## Title "), Some("Title"));
    assert_eq!(parse_markdown_heading("###### Six"), Some("Six"));
    assert_eq!(parse_markdown_heading("####### Seven"), None);
    assert_eq!(parse_markdown_heading("#NoSpace"), None);
    assert_eq!(parse_markdown_heading("#   "), None);
    assert_eq!(parse_markdown_heading("plain"), None);
}

#[test]
fn horizontal_rules() {
    assert!(is_horizontal_rule(" --- "));
    assert!(is_horizontal_rule("*****"));
    assert!(is_horizontal_rule("___"));
    assert!(!is_horizontal_rule("-*-"));
    assert!(!is_horizontal_rule("--"));
    assert!(!is_horizontal_rule("text"));
}

#[test]
fn numbered_list_items() {
    assert_eq!(parse_numbered_list("12. Item one "), Some(("12", "Item one")));
    assert_eq!(parse_numbered_list("1. "), Some(("1", "")));
    assert_eq!(parse_numbered_list("a. b"), None);
    assert_eq!(parse_numbered_list("3.no"), None);
    assert_eq!(parse_numbered_list(". x"), None);
}

#[test]
fn bullet_list_items() {
    assert_eq!(parse_bullet_list("- item "), Some("item"));
    assert_eq!(parse_bullet_list("* star"), Some("star"));
    assert_eq!(parse_bullet_list("+ plus"), Some("plus"));
    assert_eq!(parse_bullet_list("-x"), None);
    assert_eq!(parse_bullet_list(" - x"), None);
}

#[test]
fn inline_whitespace_collapses() {
    assert_eq!(collapse_inline_whitespace("  a \t b  c "), "a b c");
    assert_eq!(collapse_inline_whitespace("   "), "");
    assert_eq!(collapse_inline_whitespace("one"), "one");
}

#[test]
fn blank_lines_collapse() {
    assert_eq!(collapse_blank_lines("a\n\n\n\nb\n  \n"), "a\n\nb");
    assert_eq!(collapse_blank_lines("\n\n x \n"), "x");
    assert_eq!(collapse_blank_lines(""), "");
}

#[test]
fn collapsed_text_has_no_double_blank_lines() {
    let out = collapse_blank_lines("a\n \n\t\n\nb\n\n\nc");
    assert!(!out.contains("\n\n\n"));
    assert_eq!(out, "a\n\nb\n\nc");
    assert_eq!(out.trim(), out);
}

#[test]
fn discord_formatting_of_markdown() {
    let input = "# Title\nSome   text\n1. One\n- sub\n---\n* top";
    assert_eq!(
        format_summary_for_discord(input),
        "**Title**\n\nSome text\n1. One\n  - sub\n\n- top"
    );
}

#[test]
fn discord_formatting_removes_thinking_and_splits_sentences() {
    assert_eq!(
        format_summary_for_discord("<think>plan</think>One. Two."),
        "One.\nTwo."
    );
}

#[test]
fn discord_formatting_keeps_code_blocks() {
    assert_eq!(
        format_summary_for_discord("```\n  code  \n```\ntext   here"),
        "```\n  code\n```\ntext here"
    );
}

#[test]
fn discord_formatting_is_trimmed() {
    let out = format_summary_for_discord("\n\n  hello  \n\n");
    assert_eq!(out, "hello");
    assert_eq!(out.trim(), out);
}

#[test]
fn formatted_summary_has_no_blank_runs_or_carriage_returns() {
    let r = format_summary_for_discord("# Head\r\n\r\n\r\n\r\ntext\r\r\r\n---\n\n\n- item\r\n");
    assert!(!r.contains('\r'));
    assert!(!r.contains("\n\n\n"));
    assert_eq!(r, r.trim());
}
