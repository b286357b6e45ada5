//! The command lines given to the summarising backend, and what its output
//! and exit status come to.
use vstd::prelude::*;
use vstd::utf8::{decode_utf8, valid_utf8};

use crate::chars::{
    blank, contains, contains_chars, from_chars, has_prefix, join, join_chars, lines, lines_of,
    push_all, starts_with, to_chars, trim, trim_chars, views,
};
use crate::cookies::string_views;
use crate::entries::{chosen_model, normalize_model, opt_view};

verus! {

// ---------------------------------------------------------------------------
// Reading a failure message from the backend's error output
// ---------------------------------------------------------------------------

/// The marker the backend puts before a message meant for the user.
pub open spec fn error_marker() -> Seq<char> {
    seq!['[', 'e', 'r', 'r', 'o', 'r', ']']
}

/// The message of a line marked `[error]`, trimmed, if it is not blank.
pub open spec fn marked_error(line: Seq<char>) -> Option<Seq<char>> {
    let t = trim(line);
    if starts_with(t, error_marker()) && trim(t.skip(7)).len() > 0 {
        Some(trim(t.skip(7)))
    } else {
        None
    }
}

/// The message of the last marked line among `ls`.
pub open spec fn last_marked_error(ls: Seq<Seq<char>>) -> Option<Seq<char>>
    decreases ls.len(),
{
    if ls.len() == 0 {
        None
    } else {
        match marked_error(ls.last()) {
            Some(m) => Some(m),
            None => last_marked_error(ls.drop_last()),
        }
    }
}

/// A trimmed line that is never the failure message: blank, a warning, or
/// part of a traceback.
pub open spec fn is_noise(t: Seq<char>) -> bool {
    ||| t.len() == 0
    ||| starts_with(t, "WARNING:"@)
    ||| starts_with(t, "Traceback"@)
    ||| starts_with(t, "File "@)
    ||| starts_with(t, "During handling"@)
}

/// A trimmed line that reports an error.
pub open spec fn is_error_line(t: Seq<char>) -> bool {
    ||| starts_with(t, "ERROR:"@)
    ||| contains(t, "RuntimeError:"@)
    ||| contains(t, "SystemExit:"@)
}

/// The last line among `ls` that reports an error and is not noise, trimmed.
pub open spec fn last_error_line(ls: Seq<Seq<char>>) -> Option<Seq<char>>
    decreases ls.len(),
{
    if ls.len() == 0 {
        None
    } else {
        let t = trim(ls.last());
        if !is_noise(t) && is_error_line(t) {
            Some(t)
        } else {
            last_error_line(ls.drop_last())
        }
    }
}

/// The message shown for a failed backend run: the last `[error]` message
/// in its error output, else the last line reporting an error, else
/// `fallback`.
pub open spec fn failure_message(stderr: Seq<char>, fallback: Seq<char>) -> Seq<char> {
    match last_marked_error(lines(stderr)) {
        Some(m) => m,
        None => match last_error_line(lines(stderr)) {
            Some(l) => l,
            None => fallback,
        },
    }
}

fn marked_error_of(line: &[char]) -> (res: Option<Vec<char>>)
    ensures
        match res {
            Some(m) => marked_error(line@) == Some(m@),
            None => marked_error(line@) is None,
        },
{
    let t = trim_chars(line);
    let marker = vec!['[', 'e', 'r', 'r', 'o', 'r', ']'];
    assert(marker@ =~= error_marker());
    if !has_prefix(t.as_slice(), marker.as_slice()) {
        return None;
    }
    let rest = vstd::slice::slice_subrange(t.as_slice(), 7, t.len());
    assert(rest@ =~= t@.skip(7));
    let m = trim_chars(rest);
    if m.len() == 0 {
        None
    } else {
        Some(m)
    }
}

fn starts_with_str(t: &[char], lit: &str) -> (res: bool)
    ensures
        res == starts_with(t@, lit@),
{
    has_prefix(t, to_chars(lit).as_slice())
}

fn contains_str(t: &[char], lit: &str) -> (res: bool)
    ensures
        res == contains(t@, lit@),
{
    contains_chars(t, to_chars(lit).as_slice())
}

/// The message shown for a failed backend run, read from its error output.
pub fn backend_failure_message(stderr_output: &str, fallback: String) -> (res: String)
    ensures
        res@ == failure_message(stderr_output@, fallback@),
{
    let ls = lines_of(to_chars(stderr_output).as_slice());
    let n = ls.len();
    let mut k: usize = n;
    assert(views(ls@).take(n as int) =~= views(ls@));
    while k > 0
        invariant
            k <= n == ls@.len(),
            views(ls@) == lines(stderr_output@),
            last_marked_error(views(ls@)) == last_marked_error(views(ls@).take(k as int)),
        decreases k,
    {
        let ghost t = views(ls@).take(k as int);
        assert(t.drop_last() =~= views(ls@).take(k - 1));
        assert(t.last() == ls@[k - 1]@);
        match marked_error_of(ls[k - 1].as_slice()) {
            Some(m) => {
                return from_chars(m.as_slice());
            },
            None => {},
        }
        k = k - 1;
    }
    assert(views(ls@).take(n as int) =~= views(ls@));
    let mut k: usize = n;
    while k > 0
        invariant
            k <= n == ls@.len(),
            last_marked_error(views(ls@)) is None,
            views(ls@) == lines(stderr_output@),
            last_error_line(views(ls@)) == last_error_line(views(ls@).take(k as int)),
        decreases k,
    {
        let ghost t = views(ls@).take(k as int);
        assert(t.drop_last() =~= views(ls@).take(k - 1));
        assert(t.last() == ls@[k - 1]@);
        let line = trim_chars(ls[k - 1].as_slice());
        let noise = line.len() == 0 || starts_with_str(line.as_slice(), "WARNING:")
            || starts_with_str(line.as_slice(), "Traceback") || starts_with_str(
            line.as_slice(),
            "File ",
        ) || starts_with_str(line.as_slice(), "During handling");
        if !noise {
            if starts_with_str(line.as_slice(), "ERROR:") || contains_str(
                line.as_slice(),
                "RuntimeError:",
            ) || contains_str(line.as_slice(), "SystemExit:") {
                return from_chars(line.as_slice());
            }
        }
        k = k - 1;
    }
    assert(views(ls@).take(0) =~= Seq::<Seq<char>>::empty());
    fallback
}

/// `a`, then `b`, then `c`, as a string.
fn concat3(a: &str, b: &[char], c: &str) -> (res: String)
    ensures
        res@ == a@ + b@ + c@,
{
    let mut m = to_chars(a);
    push_all(&mut m, b);
    push_all(&mut m, to_chars(c).as_slice());
    from_chars(m.as_slice())
}

/// The message shown when a summarising run exits with a failure `status`.
pub open spec fn summarize_failure(stderr: Seq<char>, status: Seq<char>) -> Seq<char> {
    failure_message(trim(stderr), "Bundled backend exited with status "@ + status + "."@)
}

/// The message shown when a summarising run exits with a failure; `status`
/// is the exit status as text.
pub fn summarize_failure_message(stderr_output: &str, status: &str) -> (res: String)
    ensures
        res@ == summarize_failure(stderr_output@, status@),
{
    let trimmed = from_chars(trim_chars(to_chars(stderr_output).as_slice()).as_slice());
    let fallback = concat3(
        "Bundled backend exited with status ",
        to_chars(status).as_slice(),
        ".",
    );
    backend_failure_message(trimmed.as_str(), fallback)
}

// ---------------------------------------------------------------------------
// The translation backend's output
// ---------------------------------------------------------------------------

/// What `String::from_utf8_lossy` gives for `bytes`.
pub uninterp spec fn spec_utf8_lossy(bytes: Seq<u8>) -> Seq<char>;

/// The text of std's `String::from_utf8_lossy`.  The contract claims that
/// the result is the one `spec_utf8_lossy` names for `bytes`, and that it is
/// the decoded text when `bytes` are valid UTF-8.
#[verifier::external_body]
fn utf8_lossy(bytes: &[u8]) -> (res: String)
    ensures
        res@ == spec_utf8_lossy(bytes@),
        valid_utf8(bytes@) ==> res@ == decode_utf8(bytes@),
{
    String::from_utf8_lossy(bytes).into_owned()
}

/// The text std's `FromUtf8Error` displays for `bytes`.
pub uninterp spec fn spec_utf8_error_text(bytes: Seq<u8>) -> Seq<char>;

/// std's `String::from_utf8`, its error shown as text.  The contract claims
/// that it succeeds exactly on valid UTF-8, with the decoded text, and that
/// the error text is the one `spec_utf8_error_text` names for `bytes`.
#[verifier::external_body]
fn utf8_decode(bytes: Vec<u8>) -> (res: Result<String, String>)
    ensures
        match res {
            Ok(s) => valid_utf8(bytes@) && s@ == decode_utf8(bytes@),
            Err(e) => !valid_utf8(bytes@) && e@ == spec_utf8_error_text(bytes@),
        },
{
    String::from_utf8(bytes).map_err(|err| err.to_string())
}

/// The outcome of a translation run: on failure, its trimmed error output
/// (or a message with the exit status when that is blank); on success, its
/// trimmed standard output, which must be UTF-8 and not blank.
pub open spec fn translation_outcome(
    success: bool,
    status: Seq<char>,
    stdout: Seq<u8>,
    stderr: Seq<u8>,
) -> Result<Seq<char>, Seq<char>> {
    if !success {
        let e = trim(spec_utf8_lossy(stderr));
        if e.len() == 0 {
            Err("Translation backend exited with status "@ + status + "."@)
        } else {
            Err(e)
        }
    } else if !valid_utf8(stdout) {
        Err("Translation backend returned invalid UTF-8: "@ + spec_utf8_error_text(stdout))
    } else if trim(decode_utf8(stdout)).len() == 0 {
        Err("Translation backend returned an empty result."@)
    } else {
        Ok(trim(decode_utf8(stdout)))
    }
}

/// What the backend log records of a translation run: the message of a
/// failed run after `Translation failure: `, and the message of a run that
/// printed nothing; nothing for a translation or for output that is not
/// UTF-8.
pub open spec fn translation_log(success: bool, stdout: Seq<u8>, outcome: Result<
    Seq<char>,
    Seq<char>,
>) -> Option<Seq<char>> {
    match outcome {
        Ok(_) => None,
        Err(e) => if !success {
            Some("Translation failure: "@ + e)
        } else if valid_utf8(stdout) {
            Some(e)
        } else {
            None
        },
    }
}

/// The outcome of a translation run from its exit status (`success`, and
/// `status` as text) and its standard and error output, with the line that
/// the backend log records of it, if any.
pub fn translation_result(success: bool, status: &str, stdout: Vec<u8>, stderr: &[u8]) -> (res: (
    Result<String, String>,
    Option<String>,
))
    ensures
        match res.0 {
            Ok(t) => translation_outcome(success, status@, stdout@, stderr@) == Ok::<
                Seq<char>,
                Seq<char>,
            >(t@),
            Err(e) => translation_outcome(success, status@, stdout@, stderr@) == Err::<
                Seq<char>,
                Seq<char>,
            >(e@),
        },
        match res.1 {
            Some(l) => translation_log(
                success,
                stdout@,
                translation_outcome(success, status@, stdout@, stderr@),
            ) == Some(l@),
            None => translation_log(
                success,
                stdout@,
                translation_outcome(success, status@, stdout@, stderr@),
            ) is None,
        },
{
    let ghost out_bytes = stdout@;
    if !success {
        let err_text = utf8_lossy(stderr);
        let e = trim_chars(to_chars(err_text.as_str()).as_slice());
        let message = if e.len() == 0 {
            concat3("Translation backend exited with status ", to_chars(status).as_slice(), ".")
        } else {
            from_chars(e.as_slice())
        };
        let mut line = to_chars("Translation failure: ");
        push_all(&mut line, to_chars(message.as_str()).as_slice());
        return (Err(message), Some(from_chars(line.as_slice())));
    }
    let text = match utf8_decode(stdout) {
        Ok(t) => t,
        Err(e) => {
            let mut m = to_chars("Translation backend returned invalid UTF-8: ");
            push_all(&mut m, to_chars(e.as_str()).as_slice());
            return (Err(from_chars(m.as_slice())), None);
        },
    };
    let t = trim_chars(to_chars(text.as_str()).as_slice());
    if t.len() == 0 {
        let message = "Translation backend returned an empty result.".to_owned();
        let line = "Translation backend returned an empty result.".to_owned();
        return (Err(message), Some(line));
    }
    (Ok(from_chars(t.as_slice())), None)
}

// ---------------------------------------------------------------------------
// Command lines
// ---------------------------------------------------------------------------

/// The arguments of a summarising run.
pub open spec fn summarize_arg_list(
    url: Seq<char>,
    use_whisper: bool,
    model: Option<Seq<char>>,
    prompt_file: Option<Seq<char>>,
) -> Seq<Seq<char>> {
    let base = seq!["summarize"@, "--url"@, url, "--model"@, chosen_model(model)];
    let with_whisper = if use_whisper {
        base
    } else {
        base.push("--no-whisper"@)
    };
    match prompt_file {
        Some(p) => with_whisper.push("--prompt-template-file"@).push(p),
        None => with_whisper,
    }
}

/// The arguments of a summarising run for `url`; `prompt_file` is the file
/// holding the prompt template, when one was given.
pub fn summarize_args(
    url: String,
    use_whisper: bool,
    model: Option<String>,
    prompt_file: Option<String>,
) -> (res: Vec<String>)
    ensures
        string_views(res@) == summarize_arg_list(
            url@,
            use_whisper,
            opt_view(model),
            opt_view(prompt_file),
        ),
{
    let ghost u = url@;
    let ghost m = opt_view(model);
    let model = normalize_model(model);
    let mut args: Vec<String> = vec![
        "summarize".to_owned(),
        "--url".to_owned(),
        url,
        "--model".to_owned(),
        model,
    ];
    let ghost base = string_views(args@);
    assert(base =~= seq!["summarize"@, "--url"@, u, "--model"@, chosen_model(m)]);
    if !use_whisper {
        args.push("--no-whisper".to_owned());
    }
    let ghost mid = string_views(args@);
    assert(mid =~= (if use_whisper {
        base
    } else {
        base.push("--no-whisper"@)
    }));
    match prompt_file {
        Some(p) => {
            let ghost pv = p@;
            args.push("--prompt-template-file".to_owned());
            args.push(p);
            assert(string_views(args@) =~= mid.push("--prompt-template-file"@).push(pv));
        },
        None => {},
    }
    args
}

/// The arguments of a translation run.
pub open spec fn translate_arg_list(
    summary_file: Seq<char>,
    lang: Seq<char>,
    model: Option<Seq<char>>,
    prompt_file: Option<Seq<char>>,
) -> Seq<Seq<char>> {
    let base = seq![
        "translate"@,
        "--summary-file"@,
        summary_file,
        "--lang"@,
        lang,
        "--model"@,
        chosen_model(model),
    ];
    match prompt_file {
        Some(p) => base.push("--prompt-template-file"@).push(p),
        None => base,
    }
}

/// The model given on a command line: the request's model, trimmed, unless
/// it is missing or blank, and `mistral:latest` then.
pub open spec fn model_argument_ok(model: Option<Seq<char>>, arg: Seq<char>) -> bool {
    if model matches Some(m) && trim(m).len() > 0 {
        arg == trim(model->0)
    } else {
        arg == "mistral:latest"@
    }
}

/// A translation run is called as `translate --summary-file <summary file>
/// --lang <language> --model <model>`, followed by
/// `--prompt-template-file <prompt file>` exactly when a prompt file is
/// given; each flag is followed by its own input.
pub proof fn lemma_translate_args_layout(
    summary_file: Seq<char>,
    lang: Seq<char>,
    model: Option<Seq<char>>,
    prompt_file: Option<Seq<char>>,
)
    ensures
        ({
            let a = translate_arg_list(summary_file, lang, model, prompt_file);
            &&& a.len() == if prompt_file is Some { 9int } else { 7int }
            &&& a[0] == "translate"@
            &&& a[1] == "--summary-file"@ && a[2] == summary_file
            &&& a[3] == "--lang"@ && a[4] == lang
            &&& a[5] == "--model"@ && model_argument_ok(model, a[6])
            &&& prompt_file matches Some(p) ==> a[7] == "--prompt-template-file"@ && a[8] == p
        }),
{
    crate::entries::lemma_model_choice(model);
}

/// A summarising run is called as `summarize --url <url> --model <model>`,
/// then `--no-whisper` exactly when Whisper is not to be used, then
/// `--prompt-template-file <prompt file>` exactly when a prompt file is
/// given.
pub proof fn lemma_summarize_args_layout(
    url: Seq<char>,
    use_whisper: bool,
    model: Option<Seq<char>>,
    prompt_file: Option<Seq<char>>,
)
    ensures
        ({
            let a = summarize_arg_list(url, use_whisper, model, prompt_file);
            let w = if use_whisper { 0int } else { 1int };
            &&& a.len() == 5 + w + if prompt_file is Some { 2int } else { 0int }
            &&& a[0] == "summarize"@
            &&& a[1] == "--url"@ && a[2] == url
            &&& a[3] == "--model"@ && model_argument_ok(model, a[4])
            &&& !use_whisper ==> a[5] == "--no-whisper"@
            &&& prompt_file matches Some(p) ==> a[5 + w] == "--prompt-template-file"@ && a[6 + w]
                == p
        }),
{
    crate::entries::lemma_model_choice(model);
}

/// The arguments of a translation run of the summary in `summary_file`
/// into `lang`.
pub fn translate_args(
    summary_file: String,
    lang: String,
    model: Option<String>,
    prompt_file: Option<String>,
) -> (res: Vec<String>)
    ensures
        string_views(res@) == translate_arg_list(
            summary_file@,
            lang@,
            opt_view(model),
            opt_view(prompt_file),
        ),
{
    let ghost f = summary_file@;
    let ghost l = lang@;
    let ghost m = opt_view(model);
    let model = normalize_model(model);
    let mut args: Vec<String> = vec![
        "translate".to_owned(),
        "--summary-file".to_owned(),
        summary_file,
        "--lang".to_owned(),
        lang,
        "--model".to_owned(),
        model,
    ];
    let ghost base = string_views(args@);
    assert(base =~= seq![
        "translate"@,
        "--summary-file"@,
        f,
        "--lang"@,
        l,
        "--model"@,
        chosen_model(m),
    ]);
    match prompt_file {
        Some(p) => {
            let ghost pv = p@;
            args.push("--prompt-template-file".to_owned());
            args.push(p);
            assert(string_views(args@) =~= base.push("--prompt-template-file"@).push(pv));
        },
        None => {},
    }
    args
}

/// The column a translation into `lang` is stored in: `de` and `jp` are
/// supported.
pub fn translation_column(lang: &str) -> (res: Result<&'static str, String>)
    ensures
        match res {
            Ok(c) => (lang@ == "de"@ && c@ == "summary_de"@) || (lang@ == "jp"@ && c@
                == "summary_jp"@),
            Err(e) => lang@ != "de"@ && lang@ != "jp"@ && e@ == "Unsupported language code."@,
        },
{
    let cs = to_chars(lang);
    if crate::chars::chars_eq(cs.as_slice(), to_chars("de").as_slice()) {
        Ok("summary_de")
    } else if crate::chars::chars_eq(cs.as_slice(), to_chars("jp").as_slice()) {
        Ok("summary_jp")
    } else {
        Err("Unsupported language code.".to_owned())
    }
}

/// The arguments of a summarising run with the file to write the result to
/// appended.
pub fn json_command_args(args: &Vec<String>, output_path: String) -> (res: Vec<String>)
    ensures
        string_views(res@) == string_views(args@).push("--output-json"@).push(output_path@),
{
    let mut res: Vec<String> = Vec::new();
    let mut k: usize = 0;
    while k < args.len()
        invariant
            k <= args@.len(),
            string_views(res@) == string_views(args@).take(k as int),
        decreases args@.len() - k,
    {
        let a = from_chars(to_chars(args[k].as_str()).as_slice());
        let ghost before = string_views(res@);
        res.push(a);
        assert(string_views(res@) =~= before.push(args@[k as int]@));
        assert(string_views(args@).take(k + 1) =~= string_views(args@).take(k as int).push(
            args@[k as int]@,
        ));
        k = k + 1;
    }
    assert(string_views(args@).take(args@.len() as int) =~= string_views(args@));
    let ghost before = string_views(res@);
    let ghost p = output_path@;
    res.push("--output-json".to_owned());
    res.push(output_path);
    assert(string_views(res@) =~= before.push("--output-json"@).push(p));
    res
}

/// The line written to the backend log before a run: `=== kind args ===`,
/// the arguments separated by spaces.
pub fn backend_log_header(kind: &str, args: &Vec<String>) -> (res: String)
    ensures
        res@ == "=== "@ + kind@ + seq![' '] + join(string_views(args@), seq![' ']) + " ==="@,
{
    let mut parts: Vec<Vec<char>> = Vec::new();
    let mut k: usize = 0;
    while k < args.len()
        invariant
            k <= args@.len(),
            views(parts@) == string_views(args@).take(k as int),
        decreases args@.len() - k,
    {
        let a = to_chars(args[k].as_str());
        let ghost before = views(parts@);
        parts.push(a);
        assert(views(parts@) =~= before.push(args@[k as int]@));
        assert(string_views(args@).take(k + 1) =~= string_views(args@).take(k as int).push(
            args@[k as int]@,
        ));
        k = k + 1;
    }
    assert(string_views(args@).take(args@.len() as int) =~= string_views(args@));
    let space = vec![' '];
    assert(space@ =~= seq![' ']);
    let joined = join_chars(&parts, space.as_slice());
    let mut m = to_chars("=== ");
    push_all(&mut m, to_chars(kind).as_slice());
    m.push(' ');
    push_all(&mut m, joined.as_slice());
    push_all(&mut m, to_chars(" ===").as_slice());
    from_chars(m.as_slice())
}

/// The executable name of a tool on the platform: with `.exe` on Windows.
pub fn platform_executable_name(base_name: &str, windows: bool) -> (res: String)
    ensures
        res@ == if windows {
            base_name@ + ".exe"@
        } else {
            base_name@
        },
{
    if windows {
        let mut m = to_chars(base_name);
        push_all(&mut m, to_chars(".exe").as_slice());
        from_chars(m.as_slice())
    } else {
        base_name.to_owned()
    }
}

/// The media files to delete after a run: the audio and transcript files
/// whose names are not blank, in that order.
pub open spec fn artifacts(audio: Option<Seq<char>>, transcript: Option<Seq<char>>) -> Seq<
    Seq<char>,
> {
    let a = match audio {
        Some(x) => if trim(x).len() > 0 {
            seq![x]
        } else {
            Seq::empty()
        },
        None => Seq::empty(),
    };
    let t = match transcript {
        Some(x) => if trim(x).len() > 0 {
            seq![x]
        } else {
            Seq::empty()
        },
        None => Seq::empty(),
    };
    a + t
}

/// The media files to delete after a run.
pub fn artifacts_to_remove<'a>(audio: Option<&'a str>, transcript: Option<&'a str>) -> (res: Vec<
    &'a str,
>)
    ensures
        res@.map_values(|s: &str| s@) == artifacts(
            match audio {
                Some(x) => Some(x@),
                None => None,
            },
            match transcript {
                Some(x) => Some(x@),
                None => None,
            },
        ),
{
    let mut res: Vec<&'a str> = Vec::new();
    match audio {
        Some(a) => {
            if !blank(to_chars(a).as_slice()) {
                res.push(a);
            }
        },
        None => {},
    }
    let ghost first = res@.map_values(|s: &str| s@);
    match transcript {
        Some(t) => {
            if !blank(to_chars(t).as_slice()) {
                res.push(t);
            }
        },
        None => {},
    }
    assert(res@.map_values(|s: &str| s@) =~= artifacts(
        match audio {
            Some(x) => Some(x@),
            None => None,
        },
        match transcript {
            Some(x) => Some(x@),
            None => None,
        },
    ));
    res
}

/// The progress message shown for a line of backend output: the trimmed
/// line, unless it is blank.
pub fn progress_message(line: &str) -> (res: Option<String>)
    ensures
        match res {
            Some(m) => trim(line@).len() > 0 && m@ == trim(line@),
            None => trim(line@).len() == 0,
        },
{
    let t = trim_chars(to_chars(line).as_slice());
    if t.len() == 0 {
        None
    } else {
        Some(from_chars(t.as_slice()))
    }
}

/// A translation that succeeds is neither blank nor padded with white
/// space.
pub proof fn lemma_translation_trimmed(success: bool, status: Seq<char>, stdout: Seq<u8>, stderr: Seq<u8>)
    ensures
        translation_outcome(success, status, stdout, stderr) matches Ok(t) ==> t.len() > 0 && trim(t)
            == t,
{
    crate::chars::lemma_trim_idempotent(decode_utf8(stdout));
}

} // verus!
