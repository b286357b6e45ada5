use yt_summarizer::cookies::{
    build_youtube_cookie_args, cookies_file_args, get_youtube_cookie_browser_options_inner,
    home_relative_part, is_supported_cookie_browser, is_supported_linux_keyring,
    linux_browser_commands, macos_browser_app_names, windows_browser_locations,
    youtube_cookie_browser_options, CookieArgs, WindowsRoot, YoutubeCookieSourceRequest,
};

fn source(source_type: &str) -> YoutubeCookieSourceRequest {
    YoutubeCookieSourceRequest {
        source_type: source_type.to_string(),
        browser: None,
        profile: None,
        keyring: None,
        container: None,
        cookies_file: None,
    }
}

fn ready(result: Result<CookieArgs, String>) -> Vec<String> {
    match result {
        Ok(CookieArgs::Ready(args)) => args,
        other => panic!("unexpected {other:?}"),
    }
}

#[test]
fn supported_browsers() {
    assert!(is_supported_cookie_browser("chrome"));
    assert!(is_supported_cookie_browser("whale"));
    assert!(!is_supported_cookie_browser("Chrome"));
    assert!(!is_supported_cookie_browser("netscape"));
    assert_eq!(youtube_cookie_browser_options().len(), 9);
    assert_eq!(youtube_cookie_browser_options()[3].label, "Microsoft Edge");
}

#[test]
fn supported_keyrings() {
    assert!(is_supported_linux_keyring("kwallet6"));
    assert!(is_supported_linux_keyring("basictext"));
    assert!(!is_supported_linux_keyring("keychain"));
}

#[test]
fn no_source_gives_no_arguments() {
    assert!(ready(build_youtube_cookie_args(None)).is_empty());
    assert!(ready(build_youtube_cookie_args(Some(source("  ")))).is_empty());
}

#[test]
fn browser_source_arguments() {
    let mut s = source(" browser ");
    s.browser = Some(" Chrome ".to_string());
    s.keyring = Some("KWallet".to_string());
    s.profile = Some(" Profile 1 ".to_string());
    s.container = Some("Work".to_string());
    assert_eq!(
        ready(build_youtube_cookie_args(Some(s))),
        vec!["--cookies-from-browser", "chrome+kwallet:Profile 1::Work"]
    );
    let mut plain = source("browser");
    plain.browser = Some("firefox".to_string());
    assert_eq!(
        ready(build_youtube_cookie_args(Some(plain))),
        vec!["--cookies-from-browser", "firefox"]
    );
}

#[test]
fn browser_source_errors() {
    let missing = source("browser");
    assert_eq!(
        build_youtube_cookie_args(Some(missing)).unwrap_err(),
        "Select a browser cookie source."
    );
    let mut unknown = source("browser");
    unknown.browser = Some("Netscape".to_string());
    assert_eq!(
        build_youtube_cookie_args(Some(unknown)).unwrap_err(),
        "Unsupported browser cookie source: netscape"
    );
    let mut bad_keyring = source("browser");
    bad_keyring.browser = Some("chrome".to_string());
    bad_keyring.keyring = Some("Vault".to_string());
    assert_eq!(
        build_youtube_cookie_args(Some(bad_keyring)).unwrap_err(),
        "Unsupported Linux keyring: vault"
    );
}

#[test]
fn cookies_file_source() {
    let mut s = source("cookiesFile");
    s.cookies_file = Some("  ~/cookies.txt ".to_string());
    match build_youtube_cookie_args(Some(s)) {
        Ok(CookieArgs::CookiesFile(path)) => assert_eq!(path, "~/cookies.txt"),
        other => panic!("unexpected {other:?}"),
    }
    assert_eq!(
        build_youtube_cookie_args(Some(source("cookiesFile"))).unwrap_err(),
        "Enter a cookies.txt file path."
    );
    assert_eq!(
        build_youtube_cookie_args(Some(source("magic"))).unwrap_err(),
        "Unsupported YouTube cookie source type: magic"
    );
}

#[test]
fn cookies_file_arguments() {
    assert_eq!(
        cookies_file_args("/tmp/c.txt".to_string(), true),
        Ok(vec!["--cookies-file".to_string(), "/tmp/c.txt".to_string()])
    );
    assert_eq!(
        cookies_file_args("/tmp/c.txt".to_string(), false),
        Err("Cookies file does not exist: /tmp/c.txt".to_string())
    );
}

#[test]
fn home_relative_paths() {
    assert_eq!(home_relative_part("~/x/y"), Some("x/y".to_string()));
    assert_eq!(home_relative_part("/abs"), None);
    assert_eq!(home_relative_part("~user/x"), None);
}

#[test]
fn available_browser_options() {
    let options = get_youtube_cookie_browser_options_inner(&[true, false, true]);
    let ids: Vec<&str> = options.iter().map(|o| o.id).collect();
    assert_eq!(ids, vec!["chrome", "safari"]);
    assert!(get_youtube_cookie_browser_options_inner(&[]).is_empty());
}

#[test]
fn browser_install_markers() {
    assert_eq!(macos_browser_app_names("whale"), vec!["Whale.app", "Naver Whale.app"]);
    assert!(macos_browser_app_names("lynx").is_empty());
    assert_eq!(linux_browser_commands("edge"), vec!["microsoft-edge", "microsoft-edge-stable"]);
    assert!(linux_browser_commands("safari").is_empty());
    assert_eq!(
        windows_browser_locations("opera"),
        vec![
            (WindowsRoot::LocalAppData, "Programs/Opera/opera.exe"),
            (WindowsRoot::ProgramFiles, "Opera/opera.exe")
        ]
    );
    assert_eq!(
        windows_browser_locations("chrome"),
        vec![
            (WindowsRoot::ProgramFiles, "Google/Chrome/Application/chrome.exe"),
            (WindowsRoot::LocalAppData, "Google/Chrome/Application/chrome.exe")
        ]
    );
    assert!(windows_browser_locations("safari").is_empty());
}
