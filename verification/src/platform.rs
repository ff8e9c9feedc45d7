//! Platform rules: which clipboard backend a session gets, how it is
//! described, and the login items that start the application.
use crate::text::{chars_of, contains_chars, lowercase, occurs_at, push_str, str_eq, string_from_chars, to_lower};
use vstd::prelude::*;

verus! {

broadcast use vstd::string::group_string_axioms;

/// Errors raised while configuring start at login.
#[derive(Debug)]
pub enum AutostartError {
    Io(String),
    Path(String),
    NotSupported,
}

impl AutostartError {
    /// The error's message text.
    pub open spec fn message_text(&self) -> Seq<char> {
        match self {
            AutostartError::Io(m) => "io error: "@ + m@,
            AutostartError::Path(m) => "path error: "@ + m@,
            AutostartError::NotSupported => "not supported on this platform"@,
        }
    }

    /// The error's message.
    pub fn message(&self) -> (s: String)
        ensures
            s@ == self.message_text(),
    {
        let mut v: Vec<char> = Vec::new();
        match self {
            AutostartError::Io(m) => {
                push_str(&mut v, "io error: ");
                push_str(&mut v, m.as_str());
            },
            AutostartError::Path(m) => {
                push_str(&mut v, "path error: ");
                push_str(&mut v, m.as_str());
            },
            AutostartError::NotSupported => {
                push_str(&mut v, "not supported on this platform");
            },
        }
        assert(v@ == self.message_text());
        string_from_chars(&v)
    }
}

/// The systemd user unit text before the executable path.
pub open spec fn unit_head() -> Seq<char> {
    "[Unit]\nDescription=SynaptClip clipboard manager\nAfter=graphical-session.target\n\n[Service]\nType=simple\nExecStart="@
}

/// The systemd user unit text after the executable path.
pub open spec fn unit_tail() -> Seq<char> {
    "\nRestart=on-failure\nRestartSec=5\n\n[Install]\nWantedBy=default.target\n"@
}

/// The systemd user unit that launches the application on graphical login.
pub fn service_contents(exe_path: &str) -> (s: String)
    ensures
        s@ == unit_head() + exe_path@ + unit_tail(),
{
    let mut v: Vec<char> = Vec::new();
    push_str(
        &mut v,
        "[Unit]\nDescription=SynaptClip clipboard manager\nAfter=graphical-session.target\n\n[Service]\nType=simple\nExecStart=",
    );
    push_str(&mut v, exe_path);
    push_str(&mut v, "\nRestart=on-failure\nRestartSec=5\n\n[Install]\nWantedBy=default.target\n");
    string_from_chars(&v)
}

/// The same systemd user unit, as the service installer writes it.
pub fn service_file_content(executable_path: &str) -> (s: String)
    ensures
        s@ == unit_head() + executable_path@ + unit_tail(),
{
    service_contents(executable_path)
}

/// The LaunchAgent text before the executable path.
pub open spec fn plist_head() -> Seq<char> {
    "<?xml version=\"1.0\" encoding=\"UTF-8\"?>\n<!DOCTYPE plist PUBLIC \"-//Apple//DTD PLIST 1.0//EN\" \"http://www.apple.com/DTDs/PropertyList-1.0.dtd\">\n<plist version=\"1.0\"><dict>\n  <key>Label</key><string>io.aatish.synaptclip</string>\n  <key>ProgramArguments</key><array><string>"@
}

/// The LaunchAgent text after the executable path.
pub open spec fn plist_tail() -> Seq<char> {
    "</string></array>\n  <key>RunAtLoad</key><true/>\n  <key>KeepAlive</key><false/>\n</dict></plist>\n"@
}

/// The LaunchAgent property list that launches the application at login.
pub fn plist_contents(exe_path: &str) -> (s: String)
    ensures
        s@ == plist_head() + exe_path@ + plist_tail(),
{
    let mut v: Vec<char> = Vec::new();
    push_str(
        &mut v,
        "<?xml version=\"1.0\" encoding=\"UTF-8\"?>\n<!DOCTYPE plist PUBLIC \"-//Apple//DTD PLIST 1.0//EN\" \"http://www.apple.com/DTDs/PropertyList-1.0.dtd\">\n<plist version=\"1.0\"><dict>\n  <key>Label</key><string>io.aatish.synaptclip</string>\n  <key>ProgramArguments</key><array><string>",
    );
    push_str(&mut v, exe_path);
    push_str(
        &mut v,
        "</string></array>\n  <key>RunAtLoad</key><true/>\n  <key>KeepAlive</key><false/>\n</dict></plist>\n",
    );
    string_from_chars(&v)
}

/// Clipboard backend to use at run time.
#[derive(Debug)]
pub enum ClipboardBackend {
    /// Polling backend: X11, XWayland, Windows and macOS.
    Arboard,
    /// Wayland with wlroots compositors, through `wl-paste`.
    WlrDataControl,
    /// GNOME Wayland through the Clipboard History extension log.
    GchFile,
    /// GNOME Wayland with the extension installed but not enabled.
    GchNotEnabled,
    /// GNOME Wayland without the extension.
    GchNotInstalled,
    /// No supported clipboard backend for this session.
    Unsupported,
}

/// The operating system the application runs on.
#[derive(Debug)]
pub enum HostOs {
    Windows,
    MacOs,
    Linux,
    Other,
}

/// What the environment says about the session.
pub struct SessionFacts {
    pub os: HostOs,
    /// `GDK_BACKEND`, when set.
    pub gdk_backend: Option<String>,
    /// `XDG_SESSION_TYPE`, empty when unset.
    pub session_type: String,
    /// Whether `WAYLAND_DISPLAY` is set.
    pub wayland_display: bool,
    /// Whether `DISPLAY` is set.
    pub x11_display: bool,
    /// `XDG_CURRENT_DESKTOP`, empty when unset.
    pub desktop: String,
}

/// The next step of backend detection: an answer, or a probe whose result
/// the detection needs.
#[derive(Debug)]
pub enum DetectStep {
    Done(ClipboardBackend),
    /// Check whether `wl-paste` answers on the Wayland display.
    ProbeWlr,
    /// Look up the GNOME Clipboard History extension.
    QueryGch,
}

/// A Wayland session: the lowercased session type says so, or a Wayland
/// display is set.
pub open spec fn is_wayland_spec(session_type_lower: Seq<char>, wayland_display: bool) -> bool {
    session_type_lower == "wayland"@ || wayland_display
}

/// An X11 session: the lowercased session type says so, or an X display is
/// set and the session is not Wayland.
pub open spec fn is_x11_spec(
    session_type_lower: Seq<char>,
    wayland_display: bool,
    x11_display: bool,
) -> bool {
    session_type_lower == "x11"@ || (x11_display && !is_wayland_spec(
        session_type_lower,
        wayland_display,
    ))
}

/// Whether the session is Wayland; see `is_wayland_spec`.
pub fn session_is_wayland(session_type_lower: &str, wayland_display: bool) -> (b: bool)
    ensures
        b == is_wayland_spec(session_type_lower@, wayland_display),
{
    str_eq(session_type_lower, "wayland") || wayland_display
}

/// Whether the session is X11; see `is_x11_spec`.
pub fn session_is_x11(session_type_lower: &str, wayland_display: bool, x11_display: bool) -> (b: bool)
    ensures
        b == is_x11_spec(session_type_lower@, wayland_display, x11_display),
{
    str_eq(session_type_lower, "x11") || (x11_display && !session_is_wayland(
        session_type_lower,
        wayland_display,
    ))
}

/// ASCII lowercase of one character.
pub open spec fn ascii_lower_char(c: char) -> char {
    if 'A' <= c && c <= 'Z' {
        ((c as u32) + 32) as char
    } else {
        c
    }
}

/// ASCII lowercase of a string, as `str::to_ascii_lowercase` gives it.
pub open spec fn ascii_lower(s: Seq<char>) -> Seq<char> {
    Seq::new(s.len(), |i: int| ascii_lower_char(s[i]))
}

fn lower_ascii(s: &str) -> (v: Vec<char>)
    ensures
        v@ == ascii_lower(s@),
{
    let cs = chars_of(s);
    let mut v: Vec<char> = Vec::new();
    let mut i: usize = 0;
    while i < cs.len()
        invariant
            i <= cs@.len(),
            cs@ == s@,
            v@.len() == i,
            forall|k: int| 0 <= k < i ==> #[trigger] v@[k] == ascii_lower_char(cs@[k]),
        decreases cs@.len() - i,
    {
        let c = cs[i];
        let d = if 'A' <= c && c <= 'Z' {
            ((c as u8) + 32) as char
        } else {
            c
        };
        proof {
            if 'A' <= c && c <= 'Z' {
                assert(d == ((c as u32) + 32) as char);
            }
        }
        v.push(d);
        i = i + 1;
    }
    assert(v@ =~= ascii_lower(s@));
    v
}

/// A GNOME-like desktop: the ASCII-lowercased desktop name mentions
/// "gnome" or "unity".
pub open spec fn is_gnome_spec(desktop: Seq<char>) -> bool {
    (exists|at: int| occurs_at(ascii_lower(desktop), "gnome"@, at)) || (exists|at: int|
        occurs_at(ascii_lower(desktop), "unity"@, at))
}

/// The detection decision for a session, given the probe answers so far.
pub open spec fn detect_spec(
    facts: SessionFacts,
    wlr: Option<bool>,
    gch: Option<(bool, bool)>,
) -> DetectStep {
    match facts.os {
        HostOs::Linux => {
            let st = lowercase(facts.session_type@);
            let wayland = is_wayland_spec(st, facts.wayland_display);
            if facts.gdk_backend matches Some(g) && g@ == "x11"@ {
                DetectStep::Done(ClipboardBackend::Arboard)
            } else if wayland {
                if !is_gnome_spec(facts.desktop@) {
                    match wlr {
                        None => DetectStep::ProbeWlr,
                        Some(true) => DetectStep::Done(ClipboardBackend::WlrDataControl),
                        Some(false) => if facts.x11_display {
                            DetectStep::Done(ClipboardBackend::Arboard)
                        } else {
                            DetectStep::Done(ClipboardBackend::Unsupported)
                        },
                    }
                } else {
                    match gch {
                        None => DetectStep::QueryGch,
                        Some((installed, enabled)) => if installed && enabled {
                            DetectStep::Done(ClipboardBackend::GchFile)
                        } else if installed {
                            DetectStep::Done(ClipboardBackend::GchNotEnabled)
                        } else if facts.x11_display {
                            DetectStep::Done(ClipboardBackend::Arboard)
                        } else {
                            DetectStep::Done(ClipboardBackend::GchNotInstalled)
                        },
                    }
                }
            } else {
                DetectStep::Done(ClipboardBackend::Arboard)
            }
        },
        _ => DetectStep::Done(ClipboardBackend::Arboard),
    }
}

/// On Linux without `GDK_BACKEND=x11`, in a Wayland session outside GNOME
/// (the desktop name mentions neither "gnome" nor "unity", in any case), a
/// `wl-paste` probe that answers settles on the wlroots backend, whether or
/// not an X display is also set.
pub proof fn lemma_wlr_answer_wins(facts: SessionFacts, gch: Option<(bool, bool)>)
    ensures
        facts.os == HostOs::Linux && !(facts.gdk_backend matches Some(g) && g@ == "x11"@) && (lowercase(
            facts.session_type@,
        ) == "wayland"@ || facts.wayland_display) && (forall|at: int|
            !occurs_at(ascii_lower(facts.desktop@), "gnome"@, at)) && (forall|at: int|
            !occurs_at(ascii_lower(facts.desktop@), "unity"@, at)) ==> detect_spec(facts, Some(true), gch)
            == DetectStep::Done(ClipboardBackend::WlrDataControl),
{
}

/// What each session gets. Off Linux, with `GDK_BACKEND=x11`, or outside
/// Wayland: the polling backend. In Wayland outside GNOME: probe `wl-paste`,
/// then use it, or fall back to XWayland polling, or nothing. In GNOME
/// Wayland: look up the extension, then use its log, report it disabled,
/// or fall back to XWayland polling, or report it missing.
pub proof fn lemma_detect_outcomes(facts: SessionFacts, wlr: Option<bool>, gch: Option<(bool, bool)>)
    ensures
        ({
            let forced_x11 = facts.gdk_backend matches Some(g) && g@ == "x11"@;
            let wayland = lowercase(facts.session_type@) == "wayland"@ || facts.wayland_display;
            let gnome = (exists|at: int| occurs_at(ascii_lower(facts.desktop@), "gnome"@, at)) || (exists|
                at: int,
            | occurs_at(ascii_lower(facts.desktop@), "unity"@, at));
            let r = detect_spec(facts, wlr, gch);
            &&& facts.os != HostOs::Linux ==> r == DetectStep::Done(ClipboardBackend::Arboard)
            &&& facts.os == HostOs::Linux && forced_x11 ==> r == DetectStep::Done(ClipboardBackend::Arboard)
            &&& facts.os == HostOs::Linux && !forced_x11 && !wayland ==> r == DetectStep::Done(
                ClipboardBackend::Arboard,
            )
            &&& facts.os == HostOs::Linux && !forced_x11 && wayland && !gnome ==> r == (match wlr {
                None => DetectStep::ProbeWlr,
                Some(true) => DetectStep::Done(ClipboardBackend::WlrDataControl),
                Some(false) => DetectStep::Done(
                    if facts.x11_display {
                        ClipboardBackend::Arboard
                    } else {
                        ClipboardBackend::Unsupported
                    },
                ),
            })
            &&& facts.os == HostOs::Linux && !forced_x11 && wayland && gnome ==> r == (match gch {
                None => DetectStep::QueryGch,
                Some((true, true)) => DetectStep::Done(ClipboardBackend::GchFile),
                Some((true, false)) => DetectStep::Done(ClipboardBackend::GchNotEnabled),
                Some((false, _)) => DetectStep::Done(
                    if facts.x11_display {
                        ClipboardBackend::Arboard
                    } else {
                        ClipboardBackend::GchNotInstalled
                    },
                ),
            })
        }),
{
}

/// Whether an X display is set matters only once a probe has come back
/// negative: two sessions that differ only in it get the same step unless
/// `wl-paste` failed or the GNOME extension is missing.
pub proof fn lemma_x_display_is_fallback(
    f1: SessionFacts,
    f2: SessionFacts,
    wlr: Option<bool>,
    gch: Option<(bool, bool)>,
)
    requires
        f1.os == f2.os,
        f1.gdk_backend == f2.gdk_backend,
        f1.session_type == f2.session_type,
        f1.wayland_display == f2.wayland_display,
        f1.desktop == f2.desktop,
        wlr != Some(false),
        !(gch matches Some((installed, _)) && !installed),
    ensures
        detect_spec(f1, wlr, gch) == detect_spec(f2, wlr, gch),
{
}

/// One step of clipboard backend detection. Windows and macOS use the
/// polling backend. On Linux, `GDK_BACKEND=x11` forces it; a Wayland
/// session uses `wl-paste` when it answers (outside GNOME) or the Clipboard
/// History extension (on GNOME), falling back to XWayland polling when an X
/// display exists; any other session polls. `wlr` and `gch` carry the probe
/// answers already obtained (installed, enabled).
pub fn detect_step(facts: &SessionFacts, wlr: Option<bool>, gch: Option<(bool, bool)>) -> (r: DetectStep)
    ensures
        r == detect_spec(*facts, wlr, gch),
{
    match facts.os {
        HostOs::Linux => {},
        _ => {
            return DetectStep::Done(ClipboardBackend::Arboard);
        },
    }
    match &facts.gdk_backend {
        Some(g) => {
            if str_eq(g.as_str(), "x11") {
                return DetectStep::Done(ClipboardBackend::Arboard);
            }
        },
        None => {},
    }
    let st = to_lower(facts.session_type.as_str());
    let wayland = session_is_wayland(st.as_str(), facts.wayland_display);
    if !wayland {
        return DetectStep::Done(ClipboardBackend::Arboard);
    }
    let desktop = lower_ascii(facts.desktop.as_str());
    let gnome = contains_chars(&desktop, &chars_of("gnome")) || contains_chars(
        &desktop,
        &chars_of("unity"),
    );
    if !gnome {
        match wlr {
            None => DetectStep::ProbeWlr,
            Some(true) => DetectStep::Done(ClipboardBackend::WlrDataControl),
            Some(false) => {
                if facts.x11_display {
                    DetectStep::Done(ClipboardBackend::Arboard)
                } else {
                    DetectStep::Done(ClipboardBackend::Unsupported)
                }
            },
        }
    } else {
        match gch {
            None => DetectStep::QueryGch,
            Some((installed, enabled)) => {
                if installed && enabled {
                    DetectStep::Done(ClipboardBackend::GchFile)
                } else if installed {
                    DetectStep::Done(ClipboardBackend::GchNotEnabled)
                } else if facts.x11_display {
                    DetectStep::Done(ClipboardBackend::Arboard)
                } else {
                    DetectStep::Done(ClipboardBackend::GchNotInstalled)
                }
            },
        }
    }
}

/// The session name reported to the frontend.
pub open spec fn session_name_spec(facts: SessionFacts) -> Seq<char> {
    match facts.os {
        HostOs::Windows => "windows"@,
        HostOs::MacOs => "macos"@,
        _ => {
            let st = lowercase(facts.session_type@);
            if st == "wayland"@ {
                "wayland"@
            } else if st == "x11"@ {
                "x11"@
            } else if facts.wayland_display {
                "wayland"@
            } else if facts.x11_display {
                "x11"@
            } else {
                "unknown"@
            }
        },
    }
}

/// The session name: `windows`, `macos`, `wayland`, `x11` or `unknown`.
pub fn session_name(facts: &SessionFacts) -> (s: &'static str)
    ensures
        s@ == session_name_spec(*facts),
{
    match facts.os {
        HostOs::Windows => {
            return "windows";
        },
        HostOs::MacOs => {
            return "macos";
        },
        _ => {},
    }
    let st = to_lower(facts.session_type.as_str());
    if str_eq(st.as_str(), "wayland") {
        "wayland"
    } else if str_eq(st.as_str(), "x11") {
        "x11"
    } else if facts.wayland_display {
        "wayland"
    } else if facts.x11_display {
        "x11"
    } else {
        "unknown"
    }
}

/// Backend status surfaced to the frontend.
#[derive(Debug)]
pub struct BackendStatusInfo {
    /// Active backend: `arboard`, `wlr`, `gch` or `unsupported`.
    pub backend: String,
    /// Session type: `x11`, `wayland`, `windows`, `macos` or `unknown`.
    pub session: String,
    /// Description of the detected backend.
    pub detail: String,
}

/// The short name of a backend.
pub open spec fn backend_name(b: ClipboardBackend) -> Seq<char> {
    match b {
        ClipboardBackend::Arboard => "arboard"@,
        ClipboardBackend::WlrDataControl => "wlr"@,
        ClipboardBackend::GchFile => "gch"@,
        ClipboardBackend::GchNotEnabled => "gch"@,
        ClipboardBackend::GchNotInstalled => "gch"@,
        ClipboardBackend::Unsupported => "unsupported"@,
    }
}

/// The description of a backend.
pub open spec fn backend_detail(b: ClipboardBackend) -> Seq<char> {
    match b {
        ClipboardBackend::Arboard => "Using the polling clipboard backend (X11/XWayland/Windows/macOS)."@,
        ClipboardBackend::WlrDataControl => "wlroots Wayland — native wl-paste backend active."@,
        ClipboardBackend::GchFile => "GNOME Wayland — using the Clipboard History extension."@,
        ClipboardBackend::GchNotEnabled => "Clipboard History extension is installed but not enabled. Enable it in GNOME Extensions."@,
        ClipboardBackend::GchNotInstalled => "Install the Clipboard History GNOME extension to use SynaptClip on GNOME Wayland."@,
        ClipboardBackend::Unsupported => "No supported clipboard backend detected for this session."@,
    }
}

fn owned(s: &str) -> (r: String)
    ensures
        r@ == s@,
{
    let mut v: Vec<char> = Vec::new();
    push_str(&mut v, s);
    assert(v@ =~= s@);
    string_from_chars(&v)
}

/// The status shown for a detected backend in a session.
pub fn backend_status(backend: &ClipboardBackend, session: &str) -> (info: BackendStatusInfo)
    ensures
        info.backend@ == backend_name(*backend),
        info.session@ == session@,
        info.detail@ == backend_detail(*backend),
{
    let (name, detail) = match backend {
        ClipboardBackend::Arboard => (
            "arboard",
            "Using the polling clipboard backend (X11/XWayland/Windows/macOS).",
        ),
        ClipboardBackend::WlrDataControl => (
            "wlr",
            "wlroots Wayland — native wl-paste backend active.",
        ),
        ClipboardBackend::GchFile => (
            "gch",
            "GNOME Wayland — using the Clipboard History extension.",
        ),
        ClipboardBackend::GchNotEnabled => (
            "gch",
            "Clipboard History extension is installed but not enabled. Enable it in GNOME Extensions.",
        ),
        ClipboardBackend::GchNotInstalled => (
            "gch",
            "Install the Clipboard History GNOME extension to use SynaptClip on GNOME Wayland.",
        ),
        ClipboardBackend::Unsupported => (
            "unsupported",
            "No supported clipboard backend detected for this session.",
        ),
    };
    BackendStatusInfo { backend: owned(name), session: owned(session), detail: owned(detail) }
}

} // verus!
