# yt_summarizer

The text and decision logic of a desktop app that summarises YouTube videos
with a local model, written in Verus and proved against its specifications.

- `src/chars.rs`: character-level primitives (trimming, lines, words,
  searching, joining) on `Seq<char>` / `Vec<char>`.
- `src/text.rs`: counting and truncating characters, line-ending
  normalisation, removal of `<think>` blocks.
- `src/sentences.rs`: one sentence per line.
- `src/markdown.rs`: Markdown recognition and formatting of a summary for
  Discord.
- `src/chunks.rs`: cutting a summary into message-sized chunks and framing
  the Discord messages; the length guarantees.
- `src/entries.rs`: stored summaries, request options, the messages for one
  entry, the channel lookup URL.
- `src/cookies.rs`: YouTube cookie sources and browser detection tables.
- `src/webhook.rs`: Discord webhook URL checks.
- `src/backend.rs`: backend command lines, failure messages, translation
  output.
- `app/`: the Tauri shell (windows, SQLite, files, processes, HTTP) that
  calls the library.
