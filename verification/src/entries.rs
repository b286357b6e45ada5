//! Stored summaries, the options a request may leave blank, and the Discord
//! messages for one summary.
use vstd::prelude::*;
use vstd::string::StrSliceExecFns;

use crate::chars::{from_chars, push_all, to_chars, trim, trim_bounds};
use crate::chunks::{
    all_within, build_discord_messages, discord_messages, lemma_discord_messages_fit,
    message_prefix, message_suffix, DISCORD_MAX_MESSAGE_LENGTH,
};
use crate::markdown::{discord_formatted, format_summary_for_discord};
use crate::text::{lemma_limited, limit_chars, limited};

verus! {

/// The model used when a request names none.
pub const DEFAULT_MODEL: &'static str = "mistral:latest";

/// A row of the summaries table; media fields hold file names.
#[derive(Debug)]
pub struct StoredSummary {
    pub id: i64,
    pub timestamp: Option<String>,
    pub video_id: Option<String>,
    pub url: Option<String>,
    pub video_name: Option<String>,
    pub channel: Option<String>,
    pub thumbnail: Option<String>,
    pub audio: Option<String>,
    pub transcript: Option<String>,
    pub summary_en: Option<String>,
    pub summary_de: Option<String>,
    pub summary_jp: Option<String>,
}

/// A summary as shown to the user; media fields hold full paths.
#[derive(Debug)]
pub struct SummaryEntry {
    pub id: i64,
    pub timestamp: Option<String>,
    pub video_id: Option<String>,
    pub url: Option<String>,
    pub video_name: Option<String>,
    pub channel: Option<String>,
    pub thumbnail: Option<String>,
    pub audio: Option<String>,
    pub transcript: Option<String>,
    pub summary_en: Option<String>,
    pub summary_de: Option<String>,
    pub summary_jp: Option<String>,
}

/// The characters of an optional string.
pub open spec fn opt_view(o: Option<String>) -> Option<Seq<char>> {
    match o {
        Some(s) => Some(s@),
        None => None,
    }
}

/// The trimmed text of an optional string, when it is not blank.
pub open spec fn opt_trimmed(o: Option<Seq<char>>) -> Option<Seq<char>> {
    match o {
        Some(s) => if trim(s).len() > 0 {
            Some(trim(s))
        } else {
            None
        },
        None => None,
    }
}

/// A path separator on some platform: `/` everywhere, `\\` on Windows.
pub open spec fn is_separator(c: char) -> bool {
    c == '/' || c == '\\'
}

/// A bare file name: not empty, not `.` or `..`, and free of separators
/// and drive colons, so that no platform reads it as a path of its own.
pub open spec fn plain_file_name(name: Seq<char>) -> bool {
    &&& name.len() > 0
    &&& name != seq!['.']
    &&& name != seq!['.', '.']
    &&& forall|i: int| 0 <= i < name.len() ==> !is_separator(#[trigger] name[i]) && name[i] != ':'
}

/// A directory that does not start with two separators (no network share,
/// no verbatim path).
pub open spec fn plain_directory(dir: Seq<char>) -> bool {
    !(dir.len() >= 2 && is_separator(dir[0]) && is_separator(dir[1]))
}

/// `path` ends with `name`.
pub open spec fn ends_with(path: Seq<char>, name: Seq<char>) -> bool {
    path.len() >= name.len() && path.subrange(path.len() - name.len(), path.len() as int) == name
}

/// What joining `name` onto `dir` gives: `dir` and `name`, with a separator
/// between them unless `dir` is empty or ends in `/`.  Which separator is the
/// platform's choice; Windows adds none after a trailing backslash or after
/// a bare drive such as `C:`, while elsewhere a backslash is an ordinary
/// character.
pub open spec fn joined_under(dir: Seq<char>, name: Seq<char>, path: Seq<char>) -> bool {
    if dir.len() == 0 || dir.last() == '/' {
        path == dir + name
    } else {
        ||| path == dir + seq!['/'] + name
        ||| path == dir + seq!['\\'] + name
        ||| dir.last() == '\\' && path == dir + name
        ||| dir.len() == 2 && dir[1] == ':' && path == dir + name
    }
}

/// `name` joined onto the directory `dir` (std's `Path::join`), as a string.
///
/// A bare file name always ends the result. Under a directory that is not a
/// share or verbatim path, the result is the directory and the name with at
/// most one separator between them; the separator is the platform's, and
/// nothing is claimed of names that hold separators or of other
/// directories, which Windows may rewrite.
#[verifier::external_body]
fn join_media_path(dir: &str, name: &str) -> (res: String)
    ensures
        plain_file_name(name@) ==> ends_with(res@, name@),
        plain_file_name(name@) && plain_directory(dir@) ==> joined_under(dir@, name@, res@),
{
    std::path::Path::new(dir).join(name).to_string_lossy().into_owned()
}

/// The full path of a media file stored under `media_dir`.
pub open spec fn media_path_of(media_dir: Seq<char>, name: Seq<char>, path: Seq<char>) -> bool {
    &&& plain_file_name(name) ==> ends_with(path, name)
    &&& plain_file_name(name) && plain_directory(media_dir) ==> joined_under(media_dir, name, path)
}

/// An optional media path for an optional stored file name: none stays
/// none, and a name becomes its path under `media_dir`.
pub open spec fn media_field(media_dir: Seq<char>, name: Option<String>, path: Option<String>) -> bool {
    match name {
        None => path is None,
        Some(n) => path matches Some(p) && media_path_of(media_dir, n@, p@),
    }
}

/// The full path of a media file stored under `media_dir`.
pub fn absolute_media_path(media_dir: &str, file_name: Option<String>) -> (res: Option<String>)
    ensures
        media_field(media_dir@, file_name, res),
{
    match file_name {
        Some(name) => Some(join_media_path(media_dir, name.as_str())),
        None => None,
    }
}

impl StoredSummary {
    /// The entry shown for this row: the same fields, with media file names
    /// turned into paths under `media_dir`.
    pub fn into_entry(self, media_dir: &str) -> (res: SummaryEntry)
        ensures
            res.id == self.id,
            res.timestamp == self.timestamp,
            res.video_id == self.video_id,
            res.url == self.url,
            res.video_name == self.video_name,
            res.channel == self.channel,
            media_field(media_dir@, self.thumbnail, res.thumbnail),
            media_field(media_dir@, self.audio, res.audio),
            media_field(media_dir@, self.transcript, res.transcript),
            res.summary_en == self.summary_en,
            res.summary_de == self.summary_de,
            res.summary_jp == self.summary_jp,
    {
        SummaryEntry {
            id: self.id,
            timestamp: self.timestamp,
            video_id: self.video_id,
            url: self.url,
            video_name: self.video_name,
            channel: self.channel,
            thumbnail: absolute_media_path(media_dir, self.thumbnail),
            audio: absolute_media_path(media_dir, self.audio),
            transcript: absolute_media_path(media_dir, self.transcript),
            summary_en: self.summary_en,
            summary_de: self.summary_de,
            summary_jp: self.summary_jp,
        }
    }
}

/// The trimmed text of `value`, unless it is missing or blank.
pub fn option_trimmed(value: &Option<String>) -> (res: Option<&str>)
    ensures
        match res {
            Some(t) => opt_trimmed(opt_view(*value)) == Some(t@),
            None => opt_trimmed(opt_view(*value)) is None,
        },
{
    match value {
        Some(s) => {
            let st = s.as_str();
            let cs = to_chars(st);
            let (a, b) = trim_bounds(cs.as_slice());
            if a == b {
                None
            } else {
                Some(st.substring_char(a, b))
            }
        },
        None => None,
    }
}

/// The trimmed text of `value` as a new string, unless it is missing or
/// blank.
pub fn clean_optional_string(value: &Option<String>) -> (res: Option<String>)
    ensures
        opt_view(res) == opt_trimmed(opt_view(*value)),
{
    match option_trimmed(value) {
        Some(t) => Some(t.to_owned()),
        None => None,
    }
}

/// The trimmed prompt template, unless it is missing or blank.
pub fn normalize_prompt_template(prompt: Option<String>) -> (res: Option<String>)
    ensures
        opt_view(res) == opt_trimmed(opt_view(prompt)),
{
    clean_optional_string(&prompt)
}

/// The model to use: the trimmed request value, or the default model when
/// it is missing or blank.
pub open spec fn chosen_model(model: Option<Seq<char>>) -> Seq<char> {
    match opt_trimmed(model) {
        Some(m) => m,
        None => DEFAULT_MODEL@,
    }
}

/// The model to use for a request.
pub fn normalize_model(model: Option<String>) -> (res: String)
    ensures
        res@ == chosen_model(opt_view(model)),
{
    match clean_optional_string(&model) {
        Some(m) => m,
        None => DEFAULT_MODEL.to_owned(),
    }
}

/// The model chosen is the request's model, trimmed, when it has text, and
/// the default model otherwise.
pub proof fn lemma_model_choice(model: Option<Seq<char>>)
    ensures
        model matches Some(m) && trim(m).len() > 0 ==> chosen_model(model) == trim(model->0),
        !(model matches Some(m) && trim(m).len() > 0) ==> chosen_model(model) == "mistral:latest"@,
{
    reveal_strlit("mistral:latest");
}

/// The model passed to the backend is never blank and has no white space at
/// either end.
pub proof fn lemma_chosen_model_trimmed(model: Option<Seq<char>>)
    ensures
        chosen_model(model).len() > 0,
        trim(chosen_model(model)) == chosen_model(model),
{
    match opt_trimmed(model) {
        Some(m) => {
            crate::chars::lemma_trim_idempotent(model->0);
        },
        None => {
            reveal_strlit("mistral:latest");
            let d = DEFAULT_MODEL@;
            assert(d.len() == 14);
            assert(!crate::chars::is_ws(d[0]));
            assert(!crate::chars::is_ws(d.last()));
            assert(crate::chars::trim_start(d) == d);
            assert(crate::chars::trim_end(d) == d);
        },
    }
}

/// The summary sent to Discord: German if present, else English, else
/// Japanese, trimmed; blank summaries count as missing.
pub open spec fn discord_summary_choice(e: SummaryEntry) -> Option<Seq<char>> {
    if opt_trimmed(opt_view(e.summary_de)) is Some {
        opt_trimmed(opt_view(e.summary_de))
    } else if opt_trimmed(opt_view(e.summary_en)) is Some {
        opt_trimmed(opt_view(e.summary_en))
    } else {
        opt_trimmed(opt_view(e.summary_jp))
    }
}

/// `o` holds text that is not blank.
pub open spec fn has_text(o: Option<String>) -> bool {
    o matches Some(t) && trim(t@).len() > 0
}

/// The summary sent to Discord is the German one, else the English one,
/// else the Japanese one, skipping those missing or blank, and trimmed;
/// there is one exactly when any of the three has text.
pub proof fn lemma_discord_summary_priority(e: SummaryEntry)
    ensures
        discord_summary_choice(e) is Some <==> has_text(e.summary_de) || has_text(e.summary_en)
            || has_text(e.summary_jp),
        has_text(e.summary_de) ==> discord_summary_choice(e) == Some(trim(e.summary_de->0@)),
        !has_text(e.summary_de) && has_text(e.summary_en) ==> discord_summary_choice(e) == Some(
            trim(e.summary_en->0@),
        ),
        !has_text(e.summary_de) && !has_text(e.summary_en) && has_text(e.summary_jp)
            ==> discord_summary_choice(e) == Some(trim(e.summary_jp->0@)),
{
}

/// The message given when an entry has no summary to send.
pub open spec fn no_summary_message() -> Seq<char> {
    "Entry has no summary to send."@
}

/// The summary of `entry` to send to Discord.
pub fn select_summary_for_discord(entry: &SummaryEntry) -> (res: Result<&str, String>)
    ensures
        match res {
            Ok(s) => discord_summary_choice(*entry) == Some(s@),
            Err(e) => discord_summary_choice(*entry) is None && e@ == no_summary_message(),
        },
{
    match option_trimmed(&entry.summary_de) {
        Some(s) => return Ok(s),
        None => {},
    }
    match option_trimmed(&entry.summary_en) {
        Some(s) => return Ok(s),
        None => {},
    }
    match option_trimmed(&entry.summary_jp) {
        Some(s) => Ok(s),
        None => Err("Entry has no summary to send.".to_owned()),
    }
}

/// `**text**` as a character sequence.
pub open spec fn bold_title(t: Seq<char>) -> Seq<char> {
    seq!['*', '*'] + t + seq!['*', '*']
}

/// The title used when an entry has none.
pub open spec fn untitled() -> Seq<char> {
    "Untitled"@
}

/// The label before the video URL.
pub open spec fn video_label() -> Seq<char> {
    "Video: "@
}

/// The first line of the first message: the bold title, at most 500
/// characters.
pub open spec fn entry_title_line(e: SummaryEntry) -> Seq<char> {
    let title = match opt_trimmed(opt_view(e.video_name)) {
        Some(t) => t,
        None => untitled(),
    };
    limited(bold_title(title), 500)
}

/// The channel shown: the entry's own, else the one looked up.
pub open spec fn entry_channel(e: SummaryEntry, fetched: Seq<char>) -> Seq<char> {
    match opt_trimmed(opt_view(e.channel)) {
        Some(c) => c,
        None => fetched,
    }
}

/// The last line of the last message: the video URL, at most 700 characters.
pub open spec fn entry_video_line(e: SummaryEntry) -> Seq<char> {
    let url = match opt_trimmed(opt_view(e.url)) {
        Some(u) => u,
        None => Seq::empty(),
    };
    limited(video_label() + url, 700)
}

/// The Discord messages for an entry, or `None` when it has no summary.
pub open spec fn entry_messages(e: SummaryEntry, fetched: Seq<char>) -> Option<Seq<Seq<char>>> {
    match discord_summary_choice(e) {
        None => None,
        Some(summary) => Some(
            discord_messages(
                entry_title_line(e),
                limited(entry_channel(e, fetched), 300),
                entry_video_line(e),
                discord_formatted(summary),
            ),
        ),
    }
}

/// The Discord messages for `entry`.  `fetched_channel` is the channel name
/// looked up for the video, used when the entry has no channel of its own.
pub fn discord_messages_for_entry(entry: &SummaryEntry, fetched_channel: &str) -> (res: Result<
    Vec<String>,
    String,
>)
    ensures
        match res {
            Ok(ms) => entry_messages(*entry, fetched_channel@) == Some(
                ms@.map_values(|s: String| s@),
            ),
            Err(e) => entry_messages(*entry, fetched_channel@) is None && e@
                == no_summary_message(),
        },
{
    let summary = select_summary_for_discord(entry)?;
    let channel: Vec<char> = match option_trimmed(&entry.channel) {
        Some(c) => to_chars(c),
        None => to_chars(fetched_channel),
    };
    let title: Vec<char> = match option_trimmed(&entry.video_name) {
        Some(t) => to_chars(t),
        None => to_chars("Untitled"),
    };
    let url: Vec<char> = match option_trimmed(&entry.url) {
        Some(u) => to_chars(u),
        None => Vec::new(),
    };
    let mut bold: Vec<char> = vec!['*', '*'];
    push_all(&mut bold, title.as_slice());
    bold.push('*');
    bold.push('*');
    assert(bold@ =~= bold_title(title@));
    let mut video = to_chars("Video: ");
    push_all(&mut video, url.as_slice());
    assert(url@ =~= (match opt_trimmed(opt_view(entry.url)) {
        Some(u) => u,
        None => Seq::empty(),
    }));
    let title_line = limit_chars(from_chars(bold.as_slice()).as_str(), 500);
    let channel_text_line = limit_chars(from_chars(channel.as_slice()).as_str(), 300);
    let video_line = limit_chars(from_chars(video.as_slice()).as_str(), 700);
    let summary_text = format_summary_for_discord(summary);
    Ok(
        build_discord_messages(
            title_line.as_str(),
            channel_text_line.as_str(),
            video_line.as_str(),
            summary_text.as_str(),
        ),
    )
}

/// When an entry's summary takes several messages, every message fits
/// Discord's length limit.
pub proof fn lemma_entry_messages_fit(e: SummaryEntry, fetched: Seq<char>)
    ensures
        entry_messages(e, fetched) matches Some(ms) ==> ms.len() >= 1 && (ms.len() >= 2
            ==> all_within(ms, 2000)),
{
    if let Some(summary) = discord_summary_choice(e) {
        let title = entry_title_line(e);
        let channel = limited(entry_channel(e, fetched), 300);
        let video = entry_video_line(e);
        let title_src = match opt_trimmed(opt_view(e.video_name)) {
            Some(t) => t,
            None => untitled(),
        };
        let url = match opt_trimmed(opt_view(e.url)) {
            Some(u) => u,
            None => Seq::empty(),
        };
        lemma_limited(bold_title(title_src), 500);
        lemma_limited(entry_channel(e, fetched), 300);
        lemma_limited(video_label() + url, 700);
        assert(message_prefix(title, channel).len() == title.len() + channel.len() + 3);
        assert(message_suffix(video).len() == video.len() + 2);
        lemma_discord_messages_fit(title, channel, video, discord_formatted(summary));
    }
}

/// What happened last while posting an entry's messages.
#[derive(Clone, Copy, Debug, PartialEq, Eq, Structural)]
pub enum PostEvent {
    Started,
    Sent,
    Failed,
    Waited,
}

/// What to do next while posting: post the message at an index, pause
/// before the next post, stop because every message went out, or stop on
/// a failed post.
#[derive(Clone, Copy, Debug, PartialEq, Eq, Structural)]
pub enum PostAction {
    Send(usize),
    Pause,
    Finish,
    Abort,
}

/// The posting loop over `count` messages: the messages go out in order,
/// with a pause between two posts and none after the last, and the first
/// failed post ends the loop.  `index` is the message posted last.
pub open spec fn post_transition(count: int, index: int, event: PostEvent) -> (int, PostAction) {
    match event {
        PostEvent::Started => if count > 0 {
            (0, PostAction::Send(0))
        } else {
            (0, PostAction::Finish)
        },
        PostEvent::Sent => if index + 1 < count {
            (index, PostAction::Pause)
        } else {
            (index, PostAction::Finish)
        },
        PostEvent::Waited => if index + 1 < count {
            (index + 1, PostAction::Send((index + 1) as usize))
        } else {
            (index, PostAction::Finish)
        },
        PostEvent::Failed => (index, PostAction::Abort),
    }
}

/// The next step of posting `count` messages, given the message posted
/// last and what happened.
pub fn next_post_action(count: usize, index: usize, event: PostEvent) -> (res: (usize, PostAction))
    ensures
        (res.0 as int, res.1) == post_transition(count as int, index as int, event),
{
    match event {
        PostEvent::Started => if count > 0 {
            (0, PostAction::Send(0))
        } else {
            (0, PostAction::Finish)
        },
        PostEvent::Sent => if count > 0 && index < count - 1 {
            (index, PostAction::Pause)
        } else {
            (index, PostAction::Finish)
        },
        PostEvent::Waited => if count > 0 && index < count - 1 {
            (index + 1, PostAction::Send(index + 1))
        } else {
            (index, PostAction::Finish)
        },
        PostEvent::Failed => (index, PostAction::Abort),
    }
}

/// The actions taken after `action` (at most `steps` of them, `action`
/// included) when every post succeeds.
pub open spec fn actions_when_all_sent(count: int, index: int, action: PostAction, steps: nat) -> Seq<
    PostAction,
>
    decreases steps,
{
    if steps == 0 {
        Seq::empty()
    } else {
        match action {
            PostAction::Send(_) => {
                let (j, a) = post_transition(count, index, PostEvent::Sent);
                seq![action] + actions_when_all_sent(count, j, a, (steps - 1) as nat)
            },
            PostAction::Pause => {
                let (j, a) = post_transition(count, index, PostEvent::Waited);
                seq![action] + actions_when_all_sent(count, j, a, (steps - 1) as nat)
            },
            _ => seq![action],
        }
    }
}

/// Posts of the messages from `i` on, each but the last followed by a
/// pause, then the end.
pub open spec fn posts_in_order(count: int, i: int) -> Seq<PostAction>
    decreases count - i,
{
    if i + 1 < count {
        seq![PostAction::Send(i as usize), PostAction::Pause] + posts_in_order(count, i + 1)
    } else {
        seq![PostAction::Send(i as usize), PostAction::Finish]
    }
}

proof fn lemma_posts_from(count: int, i: int)
    requires
        0 <= i < count,
    ensures
        actions_when_all_sent(count, i, PostAction::Send(i as usize), (2 * (count - i)) as nat)
            == posts_in_order(count, i),
    decreases count - i,
{
    let steps = (2 * (count - i)) as nat;
    if i + 1 < count {
        lemma_posts_from(count, i + 1);
        let rest = actions_when_all_sent(
            count,
            i + 1,
            PostAction::Send((i + 1) as usize),
            (steps - 2) as nat,
        );
        assert(actions_when_all_sent(count, i, PostAction::Pause, (steps - 1) as nat) == seq![
            PostAction::Pause,
        ] + rest);
        assert(seq![PostAction::Send(i as usize)] + (seq![PostAction::Pause] + rest) =~= seq![
            PostAction::Send(i as usize),
            PostAction::Pause,
        ] + rest);
    } else {
        assert(actions_when_all_sent(count, i, PostAction::Finish, (steps - 1) as nat) == seq![
            PostAction::Finish,
        ]);
        assert(seq![PostAction::Send(i as usize)] + seq![PostAction::Finish] =~= seq![
            PostAction::Send(i as usize),
            PostAction::Finish,
        ]);
    }
}

/// When every post succeeds, the messages go out in order, one post each,
/// with a pause between two posts and none after the last.
pub proof fn lemma_posting_in_order(count: int)
    requires
        count >= 1,
    ensures
        ({
            let (i, first) = post_transition(count, 0, PostEvent::Started);
            actions_when_all_sent(count, i, first, (2 * count) as nat) == posts_in_order(count, 0)
        }),
{
    lemma_posts_from(count, 0);
}

/// A failed post always ends the loop.
pub proof fn lemma_posting_stops_on_failure(count: int, index: int)
    ensures
        post_transition(count, index, PostEvent::Failed).1 == PostAction::Abort,
{
}

/// The message given when a Discord message would be too long.
pub open spec fn too_long_message() -> Seq<char> {
    "Internal error: Discord message exceeded 2000 characters."@
}

/// Refuses a message longer than Discord accepts.
pub fn check_discord_message_length(content: &str) -> (res: Result<(), String>)
    ensures
        res is Ok <==> content@.len() <= 2000,
        res matches Err(e) ==> e@ == too_long_message(),
{
    if to_chars(content).len() > DISCORD_MAX_MESSAGE_LENGTH {
        Err("Internal error: Discord message exceeded 2000 characters.".to_owned())
    } else {
        Ok(())
    }
}

/// The channel name used when none can be found.
pub open spec fn unknown_channel() -> Seq<char> {
    "Unknown channel"@
}

/// The video URL to look the channel up with: the trimmed URL, unless it is
/// missing or blank.
pub fn channel_lookup_target(video_url: Option<&str>) -> (res: Option<&str>)
    ensures
        match video_url {
            Some(u) => match res {
                Some(t) => trim(u@).len() > 0 && t@ == trim(u@),
                None => trim(u@).len() == 0,
            },
            None => res is None,
        },
{
    match video_url {
        Some(u) => {
            let cs = to_chars(u);
            let (a, b) = trim_bounds(cs.as_slice());
            if a == b {
                None
            } else {
                Some(u.substring_char(a, b))
            }
        },
        None => None,
    }
}

/// The channel name from a looked-up author name: trimmed, or `Unknown
/// channel` when it is missing or blank.
pub fn channel_name_from_author(author: Option<&str>) -> (res: String)
    ensures
        res@ == match author {
            Some(a) => if trim(a@).len() > 0 {
                trim(a@)
            } else {
                unknown_channel()
            },
            None => unknown_channel(),
        },
{
    match channel_lookup_target(author) {
        Some(a) => a.to_owned(),
        None => "Unknown channel".to_owned(),
    }
}

/// The characters of a list of (name, value) pairs.
pub open spec fn pair_views(ps: Seq<(&str, &str)>) -> Seq<(Seq<char>, Seq<char>)> {
    ps.map_values(|p: (&str, &str)| (p.0@, p.1@))
}

/// What `reqwest::Url::parse_with_params` (the `url` crate's
/// `Url::parse_with_params`) gives for a base URL and query parameters: the
/// serialised URL, or `None` when the base does not parse.
pub uninterp spec fn spec_url_with_params(base: Seq<char>, params: Seq<(Seq<char>, Seq<char>)>) -> Option<
    Seq<char>,
>;

/// The URL `base` with the query `params` appended, serialised, from
/// `reqwest::Url::parse_with_params`.  The contract claims only that the
/// outcome is the one `spec_url_with_params` names for the arguments.
#[verifier::external_body]
fn url_with_params(base: &str, params: &Vec<(&str, &str)>) -> (res: Option<String>)
    ensures
        match res {
            Some(u) => spec_url_with_params(base@, pair_views(params@)) == Some(u@),
            None => spec_url_with_params(base@, pair_views(params@)) is None,
        },
{
    match reqwest::Url::parse_with_params(base, params.iter()) {
        Ok(url) => Some(url.as_str().to_string()),
        Err(_) => None,
    }
}

/// The oEmbed endpoint that tells a YouTube video's channel.
pub open spec fn oembed_endpoint() -> Seq<char> {
    "https://www.youtube.com/oembed"@
}

/// The oEmbed request URL for looking up the channel of a video: the
/// endpoint with the trimmed video URL and `format=json` as query; `None`
/// when the video URL is missing or blank.
pub open spec fn channel_lookup(video_url: Option<Seq<char>>) -> Option<Seq<char>> {
    match opt_trimmed(video_url) {
        Some(t) => spec_url_with_params(oembed_endpoint(), seq![("url"@, t), ("format"@, "json"@)]),
        None => None,
    }
}

/// The oEmbed request URL for looking up the channel of a video.
pub fn channel_lookup_url(video_url: Option<&str>) -> (res: Option<String>)
    ensures
        opt_view(res) == channel_lookup(
            match video_url {
                Some(u) => Some(u@),
                None => None,
            },
        ),
{
    match channel_lookup_target(video_url) {
        Some(t) => {
            let params: Vec<(&str, &str)> = vec![("url", t), ("format", "json")];
            assert(pair_views(params@) =~= seq![("url"@, t@), ("format"@, "json"@)]);
            url_with_params("https://www.youtube.com/oembed", &params)
        },
        None => None,
    }
}

} // verus!
