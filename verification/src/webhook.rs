//! Checking a Discord webhook URL before anything is sent to it.
use vstd::prelude::*;
use vstd::string::StrSliceExecFns;

use crate::chars::{
    str_views,chars_eq, has_prefix, starts_with, to_chars, trim, trim_bounds};

verus! {

/// The parts of a parsed URL that the webhook check reads.
#[derive(Debug)]
pub struct ParsedUrl {
    /// The scheme, without the `:`.
    pub scheme: String,
    /// The host, if the URL has one.
    pub host: Option<String>,
    /// The path.
    pub path: String,
    /// The whole URL as the parser serialises it.
    pub serialization: String,
}

/// The view of a parsed URL: scheme, host, path and serialisation.
pub open spec fn parsed_view(p: ParsedUrl) -> (Seq<char>, Option<Seq<char>>, Seq<char>, Seq<char>) {
    (
        p.scheme@,
        match p.host {
            Some(h) => Some(h@),
            None => None,
        },
        p.path@,
        p.serialization@,
    )
}

/// What `reqwest::Url::parse` (the `url` crate's `Url::parse`) gives for an
/// input: `None` when it refuses it, else the scheme, host, path and
/// serialisation of the URL.
pub uninterp spec fn spec_url_parse(input: Seq<char>) -> Option<
    (Seq<char>, Option<Seq<char>>, Seq<char>, Seq<char>),
>;

/// Parses `input` with `reqwest::Url::parse` and reads the scheme, host,
/// path and serialisation of the result.  The contract claims only that the
/// outcome is the one `spec_url_parse` names for `input`.
#[verifier::external_body]
fn parse_url(input: &str) -> (res: Option<ParsedUrl>)
    ensures
        match res {
            Some(p) => spec_url_parse(input@) == Some(parsed_view(p)),
            None => spec_url_parse(input@) is None,
        },
{
    match reqwest::Url::parse(input) {
        Ok(url) => Some(
            ParsedUrl {
                scheme: url.scheme().to_string(),
                host: url.host_str().map(|h| h.to_string()),
                path: url.path().to_string(),
                serialization: url.as_str().to_string(),
            },
        ),
        Err(_) => None,
    }
}

/// The hosts that serve Discord webhooks.
pub open spec fn discord_hosts() -> Seq<Seq<char>> {
    str_views(seq!["discord.com", "discordapp.com", "canary.discord.com", "ptb.discord.com"])
}

/// The path prefix of a Discord webhook.
pub open spec fn webhook_path_prefix() -> Seq<char> {
    "/api/webhooks/"@
}

/// The outcome of checking a parsed URL: refused when it did not parse, when
/// it is not HTTPS, or when it is not a webhook path on a Discord host.
pub open spec fn webhook_check(
    parsed: Option<(Seq<char>, Option<Seq<char>>, Seq<char>, Seq<char>)>,
) -> Result<(Seq<char>, Option<Seq<char>>, Seq<char>, Seq<char>), Seq<char>> {
    match parsed {
        None => Err("Discord Webhook URL is invalid."@),
        Some(p) => {
            let (scheme, host, path, _) = p;
            let host_text = match host {
                Some(h) => h,
                None => Seq::empty(),
            };
            if scheme != "https"@ {
                Err("Discord Webhook URL must use HTTPS."@)
            } else if !discord_hosts().contains(host_text) || !starts_with(
                path,
                webhook_path_prefix(),
            ) {
                Err("Discord Webhook URL must be a Discord webhook URL."@)
            } else {
                Ok(p)
            }
        },
    }
}

/// The outcome of checking a webhook URL as the user typed it.
pub open spec fn webhook_url_outcome(raw: Seq<char>) -> Result<
    (Seq<char>, Option<Seq<char>>, Seq<char>, Seq<char>),
    Seq<char>,
> {
    if trim(raw).len() == 0 {
        Err("Add a Discord Webhook URL in Settings first."@)
    } else {
        webhook_check(spec_url_parse(trim(raw)))
    }
}

fn is_discord_host(host: &[char]) -> (res: bool)
    ensures
        res == discord_hosts().contains(host@),
{
    let hosts = vec!["discord.com", "discordapp.com", "canary.discord.com", "ptb.discord.com"];
    assert(str_views(hosts@) =~= discord_hosts());
    let mut k: usize = 0;
    while k < hosts.len()
        invariant
            k <= hosts@.len(),
            str_views(hosts@) == discord_hosts(),
            forall|j: int| 0 <= j < k ==> str_views(hosts@)[j] != host@,
        decreases hosts@.len() - k,
    {
        let h = to_chars(hosts[k]);
        if chars_eq(h.as_slice(), host) {
            assert(str_views(hosts@)[k as int] == host@);
            return true;
        }
        k = k + 1;
    }
    false
}

/// Checks a parsed URL: it must be HTTPS, on a Discord host, under the
/// webhook path.
pub fn check_webhook_url(parsed: Option<ParsedUrl>) -> (res: Result<ParsedUrl, String>)
    ensures
        match res {
            Ok(p) => parsed matches Some(q) && p == q && webhook_check(Some(parsed_view(q)))
                == Ok::<_, Seq<char>>(parsed_view(q)),
            Err(e) => webhook_check(
                match parsed {
                    Some(q) => Some(parsed_view(q)),
                    None => None,
                },
            ) == Err::<(Seq<char>, Option<Seq<char>>, Seq<char>, Seq<char>), _>(e@),
        },
{
    let p = match parsed {
        Some(p) => p,
        None => return Err("Discord Webhook URL is invalid.".to_owned()),
    };
    let https = to_chars("https");
    if !chars_eq(to_chars(p.scheme.as_str()).as_slice(), https.as_slice()) {
        return Err("Discord Webhook URL must use HTTPS.".to_owned());
    }
    let host: Vec<char> = match &p.host {
        Some(h) => to_chars(h.as_str()),
        None => Vec::new(),
    };
    let prefix = to_chars("/api/webhooks/");
    let allowed = is_discord_host(host.as_slice());
    if !allowed || !has_prefix(to_chars(p.path.as_str()).as_slice(), prefix.as_slice()) {
        return Err("Discord Webhook URL must be a Discord webhook URL.".to_owned());
    }
    Ok(p)
}

/// Checks a webhook URL as the user typed it: it must not be blank, must
/// parse, and must pass `check_webhook_url`.
pub fn parse_discord_webhook_url(raw_url: &str) -> (res: Result<ParsedUrl, String>)
    ensures
        match res {
            Ok(p) => webhook_url_outcome(raw_url@) == Ok::<_, Seq<char>>(parsed_view(p)),
            Err(e) => webhook_url_outcome(raw_url@) == Err::<
                (Seq<char>, Option<Seq<char>>, Seq<char>, Seq<char>),
                _,
            >(e@),
        },
{
    let cs = to_chars(raw_url);
    let (a, b) = trim_bounds(cs.as_slice());
    if a == b {
        return Err("Add a Discord Webhook URL in Settings first.".to_owned());
    }
    let trimmed = raw_url.substring_char(a, b);
    let parsed = parse_url(trimmed);
    check_webhook_url(parsed)
}

/// An accepted webhook URL is an HTTPS URL on a Discord host whose path
/// starts with `/api/webhooks/`.
pub proof fn lemma_accepted_webhook(raw: Seq<char>)
    ensures
        webhook_url_outcome(raw) matches Ok(p) ==> {
            &&& p.0 == "https"@
            &&& p.1 is Some && discord_hosts().contains(p.1->0)
            &&& starts_with(p.2, webhook_path_prefix())
        },
{
    if let Ok(p) = webhook_url_outcome(raw) {
        if p.1 is None {
            assert(!discord_hosts().contains(Seq::<char>::empty())) by {
                reveal_strlit("discord.com");
                reveal_strlit("discordapp.com");
                reveal_strlit("canary.discord.com");
                reveal_strlit("ptb.discord.com");
                assert(discord_hosts()[0].len() > 0);
                assert(discord_hosts()[1].len() > 0);
                assert(discord_hosts()[2].len() > 0);
                assert(discord_hosts()[3].len() > 0);
            }
        }
    }
}

} // verus!
