use yt_summarizer::webhook::{check_webhook_url, parse_discord_webhook_url, ParsedUrl};

#[test]
fn valid_webhook_url_is_accepted() {
    let url = parse_discord_webhook_url("  https://discord.com/api/webhooks/123/abc ").unwrap();
    assert_eq!(url.scheme, "https");
    assert_eq!(url.host, Some("discord.com".to_string()));
    assert_eq!(url.path, "/api/webhooks/123/abc");
    assert_eq!(url.serialization, "https://discord.com/api/webhooks/123/abc");
    assert!(parse_discord_webhook_url("https://canary.discord.com/api/webhooks/1/x").is_ok());
}

#[test]
fn webhook_url_errors() {
    assert_eq!(
        parse_discord_webhook_url("   ").unwrap_err(),
        "Add a Discord Webhook URL in Settings first."
    );
    assert_eq!(
        parse_discord_webhook_url("not a url").unwrap_err(),
        "Discord Webhook URL is invalid."
    );
    assert_eq!(
        parse_discord_webhook_url("http://discord.com/api/webhooks/1/x").unwrap_err(),
        "Discord Webhook URL must use HTTPS."
    );
    assert_eq!(
        parse_discord_webhook_url("https://example.com/api/webhooks/1/x").unwrap_err(),
        "Discord Webhook URL must be a Discord webhook URL."
    );
    assert_eq!(
        parse_discord_webhook_url("https://discord.com/channels/1").unwrap_err(),
        "Discord Webhook URL must be a Discord webhook URL."
    );
}

#[test]
fn check_of_parsed_parts() {
    let parts = ParsedUrl {
        scheme: "https".to_string(),
        host: None,
        path: "/api/webhooks/1".to_string(),
        serialization: "https:/api/webhooks/1".to_string(),
    };
    assert_eq!(
        check_webhook_url(Some(parts)).unwrap_err(),
        "Discord Webhook URL must be a Discord webhook URL."
    );
    assert_eq!(check_webhook_url(None).unwrap_err(), "Discord Webhook URL is invalid.");
}
