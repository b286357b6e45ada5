use yt_summarizer::backend::{
    artifacts_to_remove, backend_failure_message, backend_log_header, json_command_args,
    platform_executable_name, progress_message, summarize_args, summarize_failure_message,
    translate_args, translation_column, translation_result,
};

#[test]
fn failure_message_prefers_marked_errors() {
    assert_eq!(
        backend_failure_message("[error] First\nnoise\n  [error]  Boom  \nmore", "fb".to_string()),
        "Boom"
    );
    assert_eq!(
        backend_failure_message("[error]   \nERROR: real", "fb".to_string()),
        "ERROR: real"
    );
}

#[test]
fn failure_message_reads_tracebacks() {
    let stderr = "Traceback (most recent call last):\n  File \"x.py\", line 1\nRuntimeError: bad thing\nWARNING: ignore me\n";
    assert_eq!(backend_failure_message(stderr, "fb".to_string()), "RuntimeError: bad thing");
    assert_eq!(backend_failure_message("nothing useful", "fallback".to_string()), "fallback");
    assert_eq!(backend_failure_message("", "fallback".to_string()), "fallback");
}

#[test]
fn summarize_failure_falls_back_to_status() {
    assert_eq!(
        summarize_failure_message("  \n", "exit status: 2"),
        "Bundled backend exited with status exit status: 2."
    );
    assert_eq!(summarize_failure_message("SystemExit: 3\n", "x"), "SystemExit: 3");
}

#[test]
fn translation_outcomes() {
    assert_eq!(
        translation_result(true, "ok", b"  Hallo Welt \n".to_vec(), b""),
        (Ok("Hallo Welt".to_string()), None)
    );
    assert_eq!(
        translation_result(true, "ok", b" \n".to_vec(), b""),
        (
            Err("Translation backend returned an empty result.".to_string()),
            Some("Translation backend returned an empty result.".to_string())
        )
    );
    assert_eq!(
        translation_result(false, "exit status: 1", b"".to_vec(), b"  "),
        (
            Err("Translation backend exited with status exit status: 1.".to_string()),
            Some("Translation failure: Translation backend exited with status exit status: 1.".to_string())
        )
    );
    assert_eq!(
        translation_result(false, "exit status: 1", b"".to_vec(), b" model missing \n"),
        (
            Err("model missing".to_string()),
            Some("Translation failure: model missing".to_string())
        )
    );
    let invalid = translation_result(true, "ok", vec![0x66, 0xff, 0x66], b"");
    assert_eq!(
        invalid,
        (
            Err("Translation backend returned invalid UTF-8: invalid utf-8 sequence of 1 bytes from index 1"
                .to_string()),
            None
        )
    );
}

#[test]
fn lossy_error_output_is_decoded() {
    assert_eq!(
        translation_result(false, "s", vec![], &[0x62, 0xff, 0x61]).0,
        Err("b\u{fffd}a".to_string())
    );
}

#[test]
fn summarize_command_line() {
    assert_eq!(
        summarize_args("https://v".to_string(), true, None, None),
        vec!["summarize", "--url", "https://v", "--model", "mistral:latest"]
    );
    assert_eq!(
        summarize_args(
            "u".to_string(),
            false,
            Some(" m ".to_string()),
            Some("/tmp/p.txt".to_string())
        ),
        vec![
            "summarize",
            "--url",
            "u",
            "--model",
            "m",
            "--no-whisper",
            "--prompt-template-file",
            "/tmp/p.txt"
        ]
    );
}

#[test]
fn translate_command_line() {
    assert_eq!(
        translate_args("/tmp/s.txt".to_string(), "de".to_string(), Some("".to_string()), None),
        vec![
            "translate",
            "--summary-file",
            "/tmp/s.txt",
            "--lang",
            "de",
            "--model",
            "mistral:latest"
        ]
    );
    assert_eq!(
        translate_args("f".to_string(), "jp".to_string(), None, Some("p".to_string())).len(),
        9
    );
}

#[test]
fn translation_columns() {
    assert_eq!(translation_column("de"), Ok("summary_de"));
    assert_eq!(translation_column("jp"), Ok("summary_jp"));
    assert_eq!(translation_column("fr"), Err("Unsupported language code.".to_string()));
}

#[test]
fn json_output_arguments() {
    let args = vec!["summarize".to_string(), "--url".to_string()];
    assert_eq!(
        json_command_args(&args, "/tmp/o.json".to_string()),
        vec!["summarize", "--url", "--output-json", "/tmp/o.json"]
    );
}

#[test]
fn log_header_line() {
    let args = vec!["a".to_string(), "b c".to_string()];
    assert_eq!(backend_log_header("summarize", &args), "=== summarize a b c ===");
    assert_eq!(backend_log_header("translate", &Vec::new()), "=== translate  ===");
}

#[test]
fn executable_names() {
    assert_eq!(platform_executable_name("ffmpeg", true), "ffmpeg.exe");
    assert_eq!(platform_executable_name("ffmpeg", false), "ffmpeg");
}

#[test]
fn artifacts_skip_blank_names() {
    assert_eq!(artifacts_to_remove(Some("a.mp3"), Some(" ")), vec!["a.mp3"]);
    assert_eq!(artifacts_to_remove(None, Some("t.txt")), vec!["t.txt"]);
    assert!(artifacts_to_remove(None, None).is_empty());
}

#[test]
fn progress_messages() {
    assert_eq!(progress_message("  Downloading 10% \n"), Some("Downloading 10%".to_string()));
    assert_eq!(progress_message("   "), None);
}
