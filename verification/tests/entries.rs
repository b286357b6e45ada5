
use yt_summarizer::entries::{
    absolute_media_path, channel_lookup_target, channel_lookup_url, channel_name_from_author,
    check_discord_message_length, clean_optional_string, discord_messages_for_entry,
    next_post_action, normalize_model, normalize_prompt_template, option_trimmed,
    select_summary_for_discord, PostAction, PostEvent, StoredSummary, SummaryEntry, DEFAULT_MODEL,
};

fn entry() -> SummaryEntry {
    SummaryEntry {
        id: 7,
        timestamp: Some("2024-01-01".to_string()),
        video_id: Some("abc".to_string()),
        url: Some(" https://youtu.be/abc ".to_string()),
        video_name: Some("My Video".to_string()),
        channel: None,
        thumbnail: None,
        audio: None,
        transcript: None,
        summary_en: Some("English summary.".to_string()),
        summary_de: Some("   ".to_string()),
        summary_jp: None,
    }
}

#[test]
fn model_defaults_when_blank() {
    assert_eq!(normalize_model(None), DEFAULT_MODEL);
    assert_eq!(normalize_model(Some("   ".to_string())), "mistral:latest");
    assert_eq!(normalize_model(Some("  llama3 ".to_string())), "llama3");
}

#[test]
fn prompt_template_blank_is_none() {
    assert_eq!(normalize_prompt_template(Some(" \n ".to_string())), None);
    assert_eq!(normalize_prompt_template(None), None);
    assert_eq!(
        normalize_prompt_template(Some("  Summarise {text} ".to_string())),
        Some("Summarise {text}".to_string())
    );
}

#[test]
fn optional_strings_are_trimmed() {
    assert_eq!(clean_optional_string(&Some(" x ".to_string())), Some("x".to_string()));
    assert_eq!(clean_optional_string(&Some("\t".to_string())), None);
    assert_eq!(option_trimmed(&Some(" y ".to_string())), Some("y"));
    assert_eq!(option_trimmed(&None), None);
}

#[test]
fn summary_choice_prefers_german_then_english() {
    let e = entry();
    assert_eq!(select_summary_for_discord(&e), Ok("English summary."));
    let mut german = entry();
    german.summary_de = Some(" Deutsch ".to_string());
    assert_eq!(select_summary_for_discord(&german), Ok("Deutsch"));
    let mut none = entry();
    none.summary_en = None;
    assert_eq!(
        select_summary_for_discord(&none),
        Err("Entry has no summary to send.".to_string())
    );
}

#[test]
fn stored_row_becomes_entry_with_media_paths() {
    let stored = StoredSummary {
        id: 3,
        timestamp: None,
        video_id: Some("v".to_string()),
        url: None,
        video_name: None,
        channel: Some("C".to_string()),
        thumbnail: Some("thumb.png".to_string()),
        audio: None,
        transcript: None,
        summary_en: Some("s".to_string()),
        summary_de: None,
        summary_jp: None,
    };
    let e = stored.into_entry("/media");
    assert_eq!(e.id, 3);
    assert_eq!(e.channel, Some("C".to_string()));
    assert_eq!(e.thumbnail, Some("/media/thumb.png".to_string()));
    assert_eq!(e.audio, None);
    assert_eq!(absolute_media_path("/media", None), None);
}

#[test]
fn media_path_adds_no_second_separator() {
    assert_eq!(
        absolute_media_path("/media/", Some("clip.mp3".to_string())),
        Some("/media/clip.mp3".to_string())
    );
    assert_eq!(
        absolute_media_path("", Some("clip.mp3".to_string())),
        Some("clip.mp3".to_string())
    );
    assert_eq!(
        absolute_media_path("abc\\", Some("x".to_string())),
        Some("abc\\/x".to_string())
    );
}

#[test]
fn entry_messages_use_fetched_channel() {
    let messages = discord_messages_for_entry(&entry(), "Fetched Channel").unwrap();
    assert_eq!(
        messages,
        vec!["**My Video**\nFetched Channel\n\nEnglish summary.\n\nVideo: https://youtu.be/abc"]
    );
}

#[test]
fn entry_messages_prefer_own_channel_and_default_title() {
    let mut e = entry();
    e.channel = Some(" Own ".to_string());
    e.video_name = None;
    e.url = None;
    let messages = discord_messages_for_entry(&e, "ignored").unwrap();
    assert_eq!(messages, vec!["**Untitled**\nOwn\n\nEnglish summary.\n\nVideo: "]);
}

#[test]
fn entry_without_summary_is_refused() {
    let mut e = entry();
    e.summary_en = None;
    assert_eq!(
        discord_messages_for_entry(&e, "x"),
        Err("Entry has no summary to send.".to_string())
    );
}

#[test]
fn long_entry_messages_fit_limit() {
    let mut e = entry();
    e.summary_en = Some("Sentence number one is here. ".repeat(200));
    e.video_name = Some("T".repeat(900));
    let messages = discord_messages_for_entry(&e, &"c".repeat(600)).unwrap();
    assert!(messages.len() >= 2);
    for m in &messages {
        assert!(m.chars().count() <= 2000);
        assert!(check_discord_message_length(m).is_ok());
    }
}

#[test]
fn too_long_message_is_refused() {
    assert_eq!(check_discord_message_length(&"x".repeat(2000)), Ok(()));
    assert_eq!(
        check_discord_message_length(&"x".repeat(2001)),
        Err("Internal error: Discord message exceeded 2000 characters.".to_string())
    );
}

#[test]
fn channel_lookup_needs_a_url() {
    assert_eq!(channel_lookup_target(Some("  https://a  ")), Some("https://a"));
    assert_eq!(channel_lookup_target(Some("   ")), None);
    assert_eq!(channel_lookup_target(None), None);
}

#[test]
fn channel_name_falls_back_to_unknown() {
    assert_eq!(channel_name_from_author(Some(" Author ")), "Author");
    assert_eq!(channel_name_from_author(Some("")), "Unknown channel");
    assert_eq!(channel_name_from_author(None), "Unknown channel");
}

#[test]
fn channel_lookup_request_url() {
    assert_eq!(
        channel_lookup_url(Some(" https://youtu.be/x ")),
        Some("https://www.youtube.com/oembed?url=https%3A%2F%2Fyoutu.be%2Fx&format=json".to_string())
    );
    assert_eq!(channel_lookup_url(Some("  ")), None);
    assert_eq!(channel_lookup_url(None), None);
}

#[test]
fn posting_pauses_between_messages_and_stops_on_failure() {
    let mut index = 0;
    let mut event = PostEvent::Started;
    let mut actions = Vec::new();
    loop {
        let (at, action) = next_post_action(3, index, event);
        index = at;
        actions.push(action);
        match action {
            PostAction::Send(_) => event = PostEvent::Sent,
            PostAction::Pause => event = PostEvent::Waited,
            _ => break,
        }
    }
    assert_eq!(
        actions,
        vec![
            PostAction::Send(0),
            PostAction::Pause,
            PostAction::Send(1),
            PostAction::Pause,
            PostAction::Send(2),
            PostAction::Finish
        ]
    );
    assert_eq!(next_post_action(3, 1, PostEvent::Failed), (1, PostAction::Abort));
    assert_eq!(next_post_action(0, 0, PostEvent::Started), (0, PostAction::Finish));
    assert_eq!(next_post_action(1, 0, PostEvent::Sent), (0, PostAction::Finish));
}
