//! Where YouTube cookies come from: the browsers that can supply them, and
//! the downloader arguments a cookie source turns into.
use vstd::prelude::*;

use crate::chars::{
    str_views,
    chars_eq, from_chars, has_prefix, lower, push_all, starts_with, to_chars, to_lower, trim,
    trim_chars,
};
use crate::entries::{clean_optional_string, has_text, opt_trimmed, opt_view};

verus! {

/// Where the downloader should take YouTube cookies from, as the user chose
/// it.
#[derive(Debug)]
pub struct YoutubeCookieSourceRequest {
    pub source_type: String,
    pub browser: Option<String>,
    pub profile: Option<String>,
    pub keyring: Option<String>,
    pub container: Option<String>,
    pub cookies_file: Option<String>,
}

/// A browser the downloader can read cookies from.
#[derive(Clone, Copy, Debug)]
pub struct YoutubeCookieBrowserOption {
    pub id: &'static str,
    pub label: &'static str,
}

/// The id and label of a browser option.
pub open spec fn option_view(o: YoutubeCookieBrowserOption) -> (Seq<char>, Seq<char>) {
    (o.id@, o.label@)
}

/// The browsers offered as cookie sources, as (id, label) pairs.
pub open spec fn cookie_browser_options() -> Seq<(Seq<char>, Seq<char>)> {
    seq![
        ("chrome"@, "Google Chrome"@),
        ("firefox"@, "Firefox"@),
        ("safari"@, "Safari"@),
        ("edge"@, "Microsoft Edge"@),
        ("brave"@, "Brave"@),
        ("chromium"@, "Chromium"@),
        ("vivaldi"@, "Vivaldi"@),
        ("opera"@, "Opera"@),
        ("whale"@, "Naver Whale"@),
    ]
}

/// The ids of the browsers offered as cookie sources.
pub open spec fn cookie_browser_ids() -> Seq<Seq<char>> {
    str_views(
        seq!["chrome", "firefox", "safari", "edge", "brave", "chromium", "vivaldi", "opera", "whale"],
    )
}

/// The Linux keyrings the downloader can decrypt cookies with.
pub open spec fn linux_keyrings() -> Seq<Seq<char>> {
    str_views(seq!["basictext", "gnomekeyring", "kwallet", "kwallet5", "kwallet6"])
}

/// The browsers offered as cookie sources.
pub fn youtube_cookie_browser_options() -> (res: Vec<YoutubeCookieBrowserOption>)
    ensures
        res@.map_values(|o: YoutubeCookieBrowserOption| option_view(o)) == cookie_browser_options(),
{
    let res = vec![
        YoutubeCookieBrowserOption { id: "chrome", label: "Google Chrome" },
        YoutubeCookieBrowserOption { id: "firefox", label: "Firefox" },
        YoutubeCookieBrowserOption { id: "safari", label: "Safari" },
        YoutubeCookieBrowserOption { id: "edge", label: "Microsoft Edge" },
        YoutubeCookieBrowserOption { id: "brave", label: "Brave" },
        YoutubeCookieBrowserOption { id: "chromium", label: "Chromium" },
        YoutubeCookieBrowserOption { id: "vivaldi", label: "Vivaldi" },
        YoutubeCookieBrowserOption { id: "opera", label: "Opera" },
        YoutubeCookieBrowserOption { id: "whale", label: "Naver Whale" },
    ];
    assert(res@.map_values(|o: YoutubeCookieBrowserOption| option_view(o))
        =~= cookie_browser_options());
    res
}

/// Whether `cs` spells the string `lit`.
fn spells(cs: &[char], lit: &str) -> (res: bool)
    ensures
        res == (cs@ == lit@),
{
    let l = to_chars(lit);
    chars_eq(cs, l.as_slice())
}

/// Whether `cs` is one of `list`.
fn one_of(cs: &[char], list: &Vec<&'static str>) -> (res: bool)
    ensures
        res == str_views(list@).contains(cs@),
{
    let mut k: usize = 0;
    while k < list.len()
        invariant
            k <= list@.len(),
            forall|j: int| 0 <= j < k ==> str_views(list@)[j] != cs@,
        decreases list@.len() - k,
    {
        if spells(cs, list[k]) {
            assert(str_views(list@)[k as int] == cs@);
            return true;
        }
        k = k + 1;
    }
    false
}

/// Whether `browser` is the id of a browser offered as a cookie source.
pub fn is_supported_cookie_browser(browser: &str) -> (res: bool)
    ensures
        res == cookie_browser_ids().contains(browser@),
{
    let ids = vec!["chrome", "firefox", "safari", "edge", "brave", "chromium", "vivaldi", "opera", "whale"];
    assert(str_views(ids@) =~= cookie_browser_ids());
    one_of(to_chars(browser).as_slice(), &ids)
}

/// Whether `keyring` names a Linux keyring the downloader supports.
pub fn is_supported_linux_keyring(keyring: &str) -> (res: bool)
    ensures
        res == linux_keyrings().contains(keyring@),
{
    let names = vec!["basictext", "gnomekeyring", "kwallet", "kwallet5", "kwallet6"];
    assert(str_views(names@) =~= linux_keyrings());
    one_of(to_chars(keyring).as_slice(), &names)
}

/// The browser options whose position is marked available in `available`
/// (positions past its end count as unavailable), in order.
pub open spec fn available_options(opts: Seq<(Seq<char>, Seq<char>)>, available: Seq<bool>) -> Seq<
    (Seq<char>, Seq<char>),
>
    decreases opts.len(),
{
    if opts.len() == 0 {
        Seq::empty()
    } else {
        let prev = available_options(opts.drop_last(), available);
        let k = opts.len() - 1;
        if k < available.len() && available[k] {
            prev.push(opts.last())
        } else {
            prev
        }
    }
}

/// The browser options that are installed; `available[k]` tells whether the
/// browser of option `k` was found on this machine.
pub fn get_youtube_cookie_browser_options_inner(available: &[bool]) -> (res: Vec<
    YoutubeCookieBrowserOption,
>)
    ensures
        res@.map_values(|o: YoutubeCookieBrowserOption| option_view(o)) == available_options(
            cookie_browser_options(),
            available@,
        ),
{
    let opts = youtube_cookie_browser_options();
    let ghost ov = opts@.map_values(|o: YoutubeCookieBrowserOption| option_view(o));
    let mut res: Vec<YoutubeCookieBrowserOption> = Vec::new();
    let mut k: usize = 0;
    assert(ov.take(0) =~= Seq::<(Seq<char>, Seq<char>)>::empty());
    assert(res@.map_values(|o: YoutubeCookieBrowserOption| option_view(o)) =~= Seq::<
        (Seq<char>, Seq<char>),
    >::empty());
    while k < opts.len()
        invariant
            k <= opts@.len(),
            ov == opts@.map_values(|o: YoutubeCookieBrowserOption| option_view(o)),
            res@.map_values(|o: YoutubeCookieBrowserOption| option_view(o)) == available_options(
                ov.take(k as int),
                available@,
            ),
        decreases opts@.len() - k,
    {
        let ghost before = res@.map_values(|o: YoutubeCookieBrowserOption| option_view(o));
        assert(ov.take(k as int + 1).drop_last() =~= ov.take(k as int));
        if k < available.len() && available[k] {
            res.push(opts[k]);
            assert(res@.map_values(|o: YoutubeCookieBrowserOption| option_view(o)) =~= before.push(
                option_view(opts@[k as int]),
            ));
        }
        k = k + 1;
    }
    assert(ov.take(opts@.len() as int) =~= ov);
    res
}

/// The application bundles that show a browser is installed on macOS.
pub open spec fn macos_app_names(id: Seq<char>) -> Seq<Seq<char>> {
    if id == "brave"@ {
        str_views(seq!["Brave Browser.app"])
    } else if id == "chrome"@ {
        str_views(seq!["Google Chrome.app"])
    } else if id == "chromium"@ {
        str_views(seq!["Chromium.app"])
    } else if id == "edge"@ {
        str_views(seq!["Microsoft Edge.app"])
    } else if id == "firefox"@ {
        str_views(seq!["Firefox.app"])
    } else if id == "opera"@ {
        str_views(seq!["Opera.app"])
    } else if id == "safari"@ {
        str_views(seq!["Safari.app"])
    } else if id == "vivaldi"@ {
        str_views(seq!["Vivaldi.app"])
    } else if id == "whale"@ {
        str_views(seq!["Whale.app", "Naver Whale.app"])
    } else {
        Seq::empty()
    }
}

/// The application bundles whose presence in an Applications folder shows
/// that browser `id` is installed on macOS.
pub fn macos_browser_app_names(id: &str) -> (res: Vec<&'static str>)
    ensures
        str_views(res@) == macos_app_names(id@),
{
    let cs = to_chars(id);
    let res: Vec<&'static str> = if spells(cs.as_slice(), "brave") {
        vec!["Brave Browser.app"]
    } else if spells(cs.as_slice(), "chrome") {
        vec!["Google Chrome.app"]
    } else if spells(cs.as_slice(), "chromium") {
        vec!["Chromium.app"]
    } else if spells(cs.as_slice(), "edge") {
        vec!["Microsoft Edge.app"]
    } else if spells(cs.as_slice(), "firefox") {
        vec!["Firefox.app"]
    } else if spells(cs.as_slice(), "opera") {
        vec!["Opera.app"]
    } else if spells(cs.as_slice(), "safari") {
        vec!["Safari.app"]
    } else if spells(cs.as_slice(), "vivaldi") {
        vec!["Vivaldi.app"]
    } else if spells(cs.as_slice(), "whale") {
        vec!["Whale.app", "Naver Whale.app"]
    } else {
        Vec::new()
    };
    assert(str_views(res@) =~= macos_app_names(id@));
    res
}

/// The commands that show a browser is installed on Linux.
pub open spec fn linux_commands(id: Seq<char>) -> Seq<Seq<char>> {
    if id == "brave"@ {
        str_views(seq!["brave-browser", "brave"])
    } else if id == "chrome"@ {
        str_views(seq!["google-chrome", "google-chrome-stable", "chrome"])
    } else if id == "chromium"@ {
        str_views(seq!["chromium", "chromium-browser"])
    } else if id == "edge"@ {
        str_views(seq!["microsoft-edge", "microsoft-edge-stable"])
    } else if id == "firefox"@ {
        str_views(seq!["firefox"])
    } else if id == "opera"@ {
        str_views(seq!["opera"])
    } else if id == "vivaldi"@ {
        str_views(seq!["vivaldi", "vivaldi-stable"])
    } else if id == "whale"@ {
        str_views(seq!["whale"])
    } else {
        Seq::empty()
    }
}

/// The commands whose presence on the search path shows that browser `id` is
/// installed on Linux (none for Safari or an unknown id).
pub fn linux_browser_commands(id: &str) -> (res: Vec<&'static str>)
    ensures
        str_views(res@) == linux_commands(id@),
{
    let cs = to_chars(id);
    let res: Vec<&'static str> = if spells(cs.as_slice(), "brave") {
        vec!["brave-browser", "brave"]
    } else if spells(cs.as_slice(), "chrome") {
        vec!["google-chrome", "google-chrome-stable", "chrome"]
    } else if spells(cs.as_slice(), "chromium") {
        vec!["chromium", "chromium-browser"]
    } else if spells(cs.as_slice(), "edge") {
        vec!["microsoft-edge", "microsoft-edge-stable"]
    } else if spells(cs.as_slice(), "firefox") {
        vec!["firefox"]
    } else if spells(cs.as_slice(), "opera") {
        vec!["opera"]
    } else if spells(cs.as_slice(), "vivaldi") {
        vec!["vivaldi", "vivaldi-stable"]
    } else if spells(cs.as_slice(), "whale") {
        vec!["whale"]
    } else {
        Vec::new()
    };
    assert(str_views(res@) =~= linux_commands(id@));
    res
}

/// The folder a Windows browser executable is looked for under.
#[derive(Clone, Copy, Debug, PartialEq, Eq, Structural)]
pub enum WindowsRoot {
    /// Both `ProgramFiles` and `ProgramFiles(x86)`.
    ProgramFiles,
    /// `LocalAppData`.
    LocalAppData,
}

/// The (root, relative path) pairs of a Windows browser executable.
pub open spec fn windows_locations(id: Seq<char>) -> Seq<(WindowsRoot, Seq<char>)> {
    let pf = WindowsRoot::ProgramFiles;
    let lad = WindowsRoot::LocalAppData;
    if id == "brave"@ {
        seq![
            (pf, "BraveSoftware/Brave-Browser/Application/brave.exe"@),
            (lad, "BraveSoftware/Brave-Browser/Application/brave.exe"@),
        ]
    } else if id == "chrome"@ {
        seq![
            (pf, "Google/Chrome/Application/chrome.exe"@),
            (lad, "Google/Chrome/Application/chrome.exe"@),
        ]
    } else if id == "chromium"@ {
        seq![(pf, "Chromium/Application/chrome.exe"@), (lad, "Chromium/Application/chrome.exe"@)]
    } else if id == "edge"@ {
        seq![
            (pf, "Microsoft/Edge/Application/msedge.exe"@),
            (lad, "Microsoft/Edge/Application/msedge.exe"@),
        ]
    } else if id == "firefox"@ {
        seq![(pf, "Mozilla Firefox/firefox.exe"@), (lad, "Mozilla Firefox/firefox.exe"@)]
    } else if id == "opera"@ {
        seq![(lad, "Programs/Opera/opera.exe"@), (pf, "Opera/opera.exe"@)]
    } else if id == "vivaldi"@ {
        seq![(pf, "Vivaldi/Application/vivaldi.exe"@), (lad, "Vivaldi/Application/vivaldi.exe"@)]
    } else if id == "whale"@ {
        seq![
            (pf, "Naver/Naver Whale/Application/whale.exe"@),
            (lad, "Naver/Naver Whale/Application/whale.exe"@),
        ]
    } else {
        Seq::empty()
    }
}

/// The view of a (root, relative path) pair.
pub open spec fn location_view(l: (WindowsRoot, &'static str)) -> (WindowsRoot, Seq<char>) {
    (l.0, l.1@)
}

fn both_roots(rel: &'static str) -> (res: Vec<(WindowsRoot, &'static str)>)
    ensures
        res@.map_values(|l: (WindowsRoot, &'static str)| location_view(l)) == seq![
            (WindowsRoot::ProgramFiles, rel@),
            (WindowsRoot::LocalAppData, rel@),
        ],
{
    let res = vec![(WindowsRoot::ProgramFiles, rel), (WindowsRoot::LocalAppData, rel)];
    assert(res@.map_values(|l: (WindowsRoot, &'static str)| location_view(l)) =~= seq![
        (WindowsRoot::ProgramFiles, rel@),
        (WindowsRoot::LocalAppData, rel@),
    ]);
    res
}

/// Where the executable of browser `id` is looked for on Windows: a path
/// under the program-files folders or under the local application data
/// folder, in the order they are tried.
pub fn windows_browser_locations(id: &str) -> (res: Vec<(WindowsRoot, &'static str)>)
    ensures
        res@.map_values(|l: (WindowsRoot, &'static str)| location_view(l)) == windows_locations(
            id@,
        ),
{
    let cs = to_chars(id);
    if spells(cs.as_slice(), "brave") {
        both_roots("BraveSoftware/Brave-Browser/Application/brave.exe")
    } else if spells(cs.as_slice(), "chrome") {
        both_roots("Google/Chrome/Application/chrome.exe")
    } else if spells(cs.as_slice(), "chromium") {
        both_roots("Chromium/Application/chrome.exe")
    } else if spells(cs.as_slice(), "edge") {
        both_roots("Microsoft/Edge/Application/msedge.exe")
    } else if spells(cs.as_slice(), "firefox") {
        both_roots("Mozilla Firefox/firefox.exe")
    } else if spells(cs.as_slice(), "opera") {
        let res = vec![
            (WindowsRoot::LocalAppData, "Programs/Opera/opera.exe"),
            (WindowsRoot::ProgramFiles, "Opera/opera.exe"),
        ];
        assert(res@.map_values(|l: (WindowsRoot, &'static str)| location_view(l))
            =~= windows_locations(id@));
        res
    } else if spells(cs.as_slice(), "vivaldi") {
        both_roots("Vivaldi/Application/vivaldi.exe")
    } else if spells(cs.as_slice(), "whale") {
        both_roots("Naver/Naver Whale/Application/whale.exe")
    } else {
        let res: Vec<(WindowsRoot, &'static str)> = Vec::new();
        assert(res@.map_values(|l: (WindowsRoot, &'static str)| location_view(l))
            =~= windows_locations(id@));
        res
    }
}

// ---------------------------------------------------------------------------
// Downloader arguments for a cookie source
// ---------------------------------------------------------------------------

/// What a cookie source comes to: downloader arguments, or a cookies file
/// whose path must still be resolved and checked before it can be used.
#[derive(Debug)]
pub enum CookieArgs {
    Ready(Vec<String>),
    CookiesFile(String),
}

/// The spec view of `CookieArgs`.
pub enum CookiePlan {
    Ready(Seq<Seq<char>>),
    CookiesFile(Seq<char>),
}

/// The characters of a list of strings.
pub open spec fn string_views(v: Seq<String>) -> Seq<Seq<char>> {
    v.map_values(|s: String| s@)
}

pub open spec fn plan_of(a: CookieArgs) -> CookiePlan {
    match a {
        CookieArgs::Ready(v) => CookiePlan::Ready(string_views(v@)),
        CookieArgs::CookiesFile(p) => CookiePlan::CookiesFile(p@),
    }
}

/// `sep` and the lowercased text, or nothing for a missing option.
pub open spec fn optional_part(sep: Seq<char>, o: Option<Seq<char>>) -> Seq<char> {
    match o {
        Some(t) => sep + t,
        None => Seq::empty(),
    }
}

/// The `--cookies-from-browser` value for a browser source: the lowercased
/// browser id, then `+keyring` (lowercased), `:profile` and `::container`
/// for the options that are given; an unknown browser or keyring is refused.
pub open spec fn browser_cookie_spec(src: YoutubeCookieSourceRequest) -> Result<Seq<char>, Seq<char>> {
    match opt_trimmed(opt_view(src.browser)) {
        None => Err("Select a browser cookie source."@),
        Some(b) => {
            let browser = lower(b);
            let keyring = match opt_trimmed(opt_view(src.keyring)) {
                Some(k) => Some(lower(k)),
                None => None,
            };
            if !cookie_browser_ids().contains(browser) {
                Err("Unsupported browser cookie source: "@ + browser)
            } else if keyring is Some && !linux_keyrings().contains(keyring->0) {
                Err("Unsupported Linux keyring: "@ + keyring->0)
            } else {
                Ok(
                    browser + optional_part(seq!['+'], keyring) + optional_part(
                        seq![':'],
                        opt_trimmed(opt_view(src.profile)),
                    ) + optional_part(seq![':', ':'], opt_trimmed(opt_view(src.container))),
                )
            }
        },
    }
}

/// What a cookie source comes to: no arguments without a source or with an
/// empty type; `--cookies-from-browser` for a browser; a cookies file to
/// check for `cookiesFile`; any other type is refused.
pub open spec fn cookie_plan(source: Option<YoutubeCookieSourceRequest>) -> Result<CookiePlan, Seq<char>> {
    match source {
        None => Ok(CookiePlan::Ready(Seq::empty())),
        Some(src) => {
            let t = trim(src.source_type@);
            if t == "browser"@ {
                match browser_cookie_spec(src) {
                    Ok(spec) => Ok(CookiePlan::Ready(seq!["--cookies-from-browser"@, spec])),
                    Err(e) => Err(e),
                }
            } else if t == "cookiesFile"@ {
                match opt_trimmed(opt_view(src.cookies_file)) {
                    Some(path) => Ok(CookiePlan::CookiesFile(path)),
                    None => Err("Enter a cookies.txt file path."@),
                }
            } else if t.len() == 0 {
                Ok(CookiePlan::Ready(Seq::empty()))
            } else {
                Err("Unsupported YouTube cookie source type: "@ + t)
            }
        },
    }
}

/// A request for cookies from `browser`, with no keyring, profile or
/// container.
pub open spec fn plain_browser_request(src: YoutubeCookieSourceRequest, browser: Seq<char>) -> bool {
    &&& trim(src.source_type@) == "browser"@
    &&& src.browser matches Some(b) && lower(trim(b@)) == browser
    &&& src.keyring is None
    &&& src.profile is None
    &&& src.container is None
}

/// Every browser offered as a cookie source is accepted: a request naming
/// its id (in any letter case, with white space around it) gives
/// `--cookies-from-browser` and that id.  A browser that is not offered is
/// refused with a message naming it.
pub proof fn lemma_offered_browsers_accepted(src: YoutubeCookieSourceRequest, browser: Seq<char>)
    requires
        plain_browser_request(src, browser),
    ensures
        (exists|i: int|
            0 <= i < cookie_browser_options().len() && #[trigger] cookie_browser_options()[i].0
                == browser) ==> cookie_plan(Some(src)) == Ok::<CookiePlan, Seq<char>>(
            CookiePlan::Ready(seq!["--cookies-from-browser"@, browser]),
        ),
        (forall|i: int|
            0 <= i < cookie_browser_options().len() ==> #[trigger] cookie_browser_options()[i].0
                != browser) && browser.len() > 0 ==> cookie_plan(Some(src)) == Err::<
            CookiePlan,
            Seq<char>,
        >("Unsupported browser cookie source: "@ + browser),
{
    let ids = cookie_browser_ids();
    assert(ids.len() == cookie_browser_options().len());
    assert forall|i: int| 0 <= i < ids.len() implies ids[i] == #[trigger] cookie_browser_options()[
        i
    ].0 by {
        assert(ids[i] == cookie_browser_options()[i].0);
    }
    let b = src.browser->0@;
    if browser.len() > 0 {
        assert(trim(b).len() > 0) by {
            if trim(b).len() == 0 {
                assert(lower(trim(b)).len() == trim(b).len());
            }
        }
    }
    if exists|i: int|
        0 <= i < cookie_browser_options().len() && #[trigger] cookie_browser_options()[i].0
            == browser {
        let i = choose|i: int|
            0 <= i < cookie_browser_options().len() && #[trigger] cookie_browser_options()[i].0
                == browser;
        assert(ids[i] == browser);
        reveal_strlit("chrome");
        reveal_strlit("firefox");
        reveal_strlit("safari");
        reveal_strlit("edge");
        reveal_strlit("brave");
        reveal_strlit("chromium");
        reveal_strlit("vivaldi");
        reveal_strlit("opera");
        reveal_strlit("whale");
        assert(browser.len() > 0);
        assert(ids.contains(browser));
        assert(optional_part(seq!['+'], None) == Seq::<char>::empty());
        assert(browser + Seq::<char>::empty() + Seq::<char>::empty() + Seq::<char>::empty()
            =~= browser);
    } else if browser.len() > 0 {
        assert(!ids.contains(browser)) by {
            if ids.contains(browser) {
                let j = choose|j: int| 0 <= j < ids.len() && ids[j] == browser;
                assert(cookie_browser_options()[j].0 == browser);
            }
        }
    }
}

/// `text` after `sep` when the option has text (trimmed, and lowercased
/// when `lowercase`), and nothing otherwise.
pub open spec fn given_part(sep: Seq<char>, o: Option<String>, lowercase: bool) -> Seq<char> {
    if has_text(o) {
        sep + if lowercase {
            lower(trim(o->0@))
        } else {
            trim(o->0@)
        }
    } else {
        Seq::empty()
    }
}

/// One of the keyrings the downloader knows.
pub open spec fn known_keyring(k: Seq<char>) -> bool {
    k == "basictext"@ || k == "gnomekeyring"@ || k == "kwallet"@ || k == "kwallet5"@ || k
        == "kwallet6"@
}

/// For an offered browser, the `--cookies-from-browser` value is the browser
/// id, then `+` and the keyring (lowercased), `:` and the profile, and `::`
/// and the container, each only when given with text.  A keyring the
/// downloader does not know is refused with a message naming it.
pub proof fn lemma_browser_spec_parts(src: YoutubeCookieSourceRequest, browser: Seq<char>)
    requires
        trim(src.source_type@) == "browser"@,
        src.browser matches Some(b) && lower(trim(b@)) == browser,
        exists|i: int|
            0 <= i < cookie_browser_options().len() && #[trigger] cookie_browser_options()[i].0
                == browser,
    ensures
        has_text(src.keyring) && !known_keyring(lower(trim(src.keyring->0@))) ==> cookie_plan(
            Some(src),
        ) == Err::<CookiePlan, Seq<char>>(
            "Unsupported Linux keyring: "@ + lower(trim(src.keyring->0@)),
        ),
        !(has_text(src.keyring) && !known_keyring(lower(trim(src.keyring->0@)))) ==> cookie_plan(
            Some(src),
        ) == Ok::<CookiePlan, Seq<char>>(
            CookiePlan::Ready(
                seq![
                    "--cookies-from-browser"@,
                    browser + given_part(seq!['+'], src.keyring, true) + given_part(
                        seq![':'],
                        src.profile,
                        false,
                    ) + given_part(seq![':', ':'], src.container, false),
                ],
            ),
        ),
{
    let ids = cookie_browser_ids();
    let i = choose|i: int|
        0 <= i < cookie_browser_options().len() && #[trigger] cookie_browser_options()[i].0
            == browser;
    assert(ids[i] == cookie_browser_options()[i].0);
    reveal_strlit("chrome");
    reveal_strlit("firefox");
    reveal_strlit("safari");
    reveal_strlit("edge");
    reveal_strlit("brave");
    reveal_strlit("chromium");
    reveal_strlit("vivaldi");
    reveal_strlit("opera");
    reveal_strlit("whale");
    assert(browser.len() > 0);
    assert(ids.contains(browser));
    let b = src.browser->0@;
    assert(trim(b).len() > 0) by {
        if trim(b).len() == 0 {
            assert(lower(trim(b)).len() == trim(b).len());
        }
    }
    let ks = linux_keyrings();
    assert(ks =~= seq!["basictext"@, "gnomekeyring"@, "kwallet"@, "kwallet5"@, "kwallet6"@]);
    if has_text(src.keyring) {
        let k = lower(trim(src.keyring->0@));
        assert(ks.contains(k) <==> known_keyring(k)) by {
            if known_keyring(k) {
                if k == "basictext"@ {
                    assert(ks[0] == k);
                } else if k == "gnomekeyring"@ {
                    assert(ks[1] == k);
                } else if k == "kwallet"@ {
                    assert(ks[2] == k);
                } else if k == "kwallet5"@ {
                    assert(ks[3] == k);
                } else {
                    assert(ks[4] == k);
                }
            }
        }
    }
}

/// What each kind of cookie source comes to: nothing without a source or
/// with a blank type, the trimmed path for `cookiesFile` (a blank path is
/// refused), and a refusal naming any type other than `browser`.
pub proof fn lemma_cookie_source_types(src: YoutubeCookieSourceRequest)
    ensures
        cookie_plan(None) == Ok::<CookiePlan, Seq<char>>(CookiePlan::Ready(Seq::empty())),
        trim(src.source_type@).len() == 0 ==> cookie_plan(Some(src)) == Ok::<
            CookiePlan,
            Seq<char>,
        >(CookiePlan::Ready(Seq::empty())),
        trim(src.source_type@) == "cookiesFile"@ && has_text(src.cookies_file) ==> cookie_plan(
            Some(src),
        ) == Ok::<CookiePlan, Seq<char>>(CookiePlan::CookiesFile(trim(src.cookies_file->0@))),
        trim(src.source_type@) == "cookiesFile"@ && !has_text(src.cookies_file) ==> cookie_plan(
            Some(src),
        ) == Err::<CookiePlan, Seq<char>>("Enter a cookies.txt file path."@),
        trim(src.source_type@).len() > 0 && trim(src.source_type@) != "browser"@ && trim(
            src.source_type@,
        ) != "cookiesFile"@ ==> cookie_plan(Some(src)) == Err::<CookiePlan, Seq<char>>(
            "Unsupported YouTube cookie source type: "@ + trim(src.source_type@),
        ),
{
    reveal_strlit("browser");
    reveal_strlit("cookiesFile");
    assert("browser"@.len() != "cookiesFile"@.len());
    assert("browser"@ != "cookiesFile"@);
}

/// `prefix` followed by `text`, as a string.
fn message_with(prefix: &str, text: &[char]) -> (res: String)
    ensures
        res@ == prefix@ + text@,
{
    let mut m = to_chars(prefix);
    push_all(&mut m, text);
    from_chars(m.as_slice())
}

fn browser_spec_for(src: &YoutubeCookieSourceRequest) -> (res: Result<String, String>)
    ensures
        match res {
            Ok(s) => browser_cookie_spec(*src) == Ok::<Seq<char>, Seq<char>>(s@),
            Err(e) => browser_cookie_spec(*src) == Err::<Seq<char>, Seq<char>>(e@),
        },
{
    let browser = match clean_optional_string(&src.browser) {
        Some(b) => to_lower(to_chars(b.as_str()).as_slice()),
        None => return Err("Select a browser cookie source.".to_owned()),
    };
    let keyring: Option<Vec<char>> = match clean_optional_string(&src.keyring) {
        Some(k) => Some(to_lower(to_chars(k.as_str()).as_slice())),
        None => None,
    };
    let ids = vec!["chrome", "firefox", "safari", "edge", "brave", "chromium", "vivaldi", "opera", "whale"];
    assert(str_views(ids@) =~= cookie_browser_ids());
    if !one_of(browser.as_slice(), &ids) {
        return Err(message_with("Unsupported browser cookie source: ", browser.as_slice()));
    }
    let mut spec = browser;
    let ghost b = spec@;
    match &keyring {
        Some(k) => {
            let names = vec!["basictext", "gnomekeyring", "kwallet", "kwallet5", "kwallet6"];
            assert(str_views(names@) =~= linux_keyrings());
            if !one_of(k.as_slice(), &names) {
                return Err(message_with("Unsupported Linux keyring: ", k.as_slice()));
            }
            spec.push('+');
            push_all(&mut spec, k.as_slice());
        },
        None => {},
    }
    let ghost with_keyring = spec@;
    assert(with_keyring =~= b + optional_part(
        seq!['+'],
        match keyring {
            Some(k) => Some(k@),
            None => None,
        },
    ));
    match clean_optional_string(&src.profile) {
        Some(p) => {
            spec.push(':');
            push_all(&mut spec, to_chars(p.as_str()).as_slice());
        },
        None => {},
    }
    let ghost with_profile = spec@;
    assert(with_profile =~= with_keyring + optional_part(
        seq![':'],
        opt_trimmed(opt_view(src.profile)),
    ));
    match clean_optional_string(&src.container) {
        Some(c) => {
            spec.push(':');
            spec.push(':');
            push_all(&mut spec, to_chars(c.as_str()).as_slice());
        },
        None => {},
    }
    assert(spec@ =~= with_profile + optional_part(
        seq![':', ':'],
        opt_trimmed(opt_view(src.container)),
    ));
    Ok(from_chars(spec.as_slice()))
}

/// The downloader arguments for a cookie source, or the cookies file that
/// still has to be resolved and checked (see `cookies_file_args`).
pub fn build_youtube_cookie_args(cookie_source: Option<YoutubeCookieSourceRequest>) -> (res: Result<
    CookieArgs,
    String,
>)
    ensures
        match res {
            Ok(a) => cookie_plan(cookie_source) == Ok::<CookiePlan, Seq<char>>(plan_of(a)),
            Err(e) => cookie_plan(cookie_source) == Err::<CookiePlan, Seq<char>>(e@),
        },
{
    let src = match cookie_source {
        Some(s) => s,
        None => {
            let v: Vec<String> = Vec::new();
            assert(string_views(v@) =~= Seq::<Seq<char>>::empty());
            return Ok(CookieArgs::Ready(v));
        },
    };
    let t = trim_chars(to_chars(src.source_type.as_str()).as_slice());
    if spells(t.as_slice(), "browser") {
        let spec = browser_spec_for(&src)?;
        let v: Vec<String> = vec!["--cookies-from-browser".to_owned(), spec];
        assert(string_views(v@) =~= seq!["--cookies-from-browser"@, v@[1]@]);
        Ok(CookieArgs::Ready(v))
    } else if spells(t.as_slice(), "cookiesFile") {
        match clean_optional_string(&src.cookies_file) {
            Some(path) => Ok(CookieArgs::CookiesFile(path)),
            None => Err("Enter a cookies.txt file path.".to_owned()),
        }
    } else if t.len() == 0 {
        let v: Vec<String> = Vec::new();
        assert(string_views(v@) =~= Seq::<Seq<char>>::empty());
        Ok(CookieArgs::Ready(v))
    } else {
        Err(message_with("Unsupported YouTube cookie source type: ", t.as_slice()))
    }
}

/// The downloader arguments for a cookies file at `resolved_path`;
/// `exists` tells whether that file exists.
pub fn cookies_file_args(resolved_path: String, exists: bool) -> (res: Result<Vec<String>, String>)
    ensures
        match res {
            Ok(v) => exists && string_views(v@) == seq!["--cookies-file"@, resolved_path@],
            Err(e) => !exists && e@ == "Cookies file does not exist: "@ + resolved_path@,
        },
{
    if !exists {
        return Err(message_with(
            "Cookies file does not exist: ",
            to_chars(resolved_path.as_str()).as_slice(),
        ));
    }
    let ghost p = resolved_path@;
    let v: Vec<String> = vec!["--cookies-file".to_owned(), resolved_path];
    assert(string_views(v@) =~= seq!["--cookies-file"@, p]);
    Ok(v)
}

/// The part of a `~/`-relative path after `~/`, which is to be joined to the
/// home folder; `None` for any other path.
pub fn home_relative_part(raw_path: &str) -> (res: Option<String>)
    ensures
        match res {
            Some(rest) => starts_with(raw_path@, seq!['~', '/']) && rest@ == raw_path@.skip(2),
            None => !starts_with(raw_path@, seq!['~', '/']),
        },
{
    let cs = to_chars(raw_path);
    let prefix = vec!['~', '/'];
    assert(prefix@ =~= seq!['~', '/']);
    if has_prefix(cs.as_slice(), prefix.as_slice()) {
        let rest = vstd::slice::slice_subrange(cs.as_slice(), 2, cs.len());
        assert(rest@ =~= raw_path@.skip(2));
        Some(from_chars(rest))
    } else {
        None
    }
}

} // verus!
