//! Clipboard capture: the records watchers produce, their errors, and the
//! log format of the GNOME Clipboard History extension.
use crate::text::{chars_of, contains_chars, occurs_at, push_str, string_from_chars, trim_str, trimmed};
use vstd::prelude::*;
use vstd::utf8::{decode_utf8, valid_utf8};

verus! {

broadcast use vstd::string::group_string_axioms;

/// Identifier of the GNOME Clipboard History extension.
pub const EXTENSION_ID: &'static str = "clipboard-history@alexsaveau.dev";

/// Log record: an entry was added.
pub const OP_ADD: u8 = 0x01;

/// Log record: an entry was deleted.
pub const OP_DELETE: u8 = 0x02;

/// Log record: an entry was moved.
pub const OP_MOVE: u8 = 0x03;

/// A new clipboard entry captured by a watcher.
#[derive(Debug)]
pub struct NewClip {
    /// The clipboard text.
    pub content: String,
    /// Content type; always "text".
    pub content_type: String,
    /// Source application name, when known.
    pub source_app: Option<String>,
}

/// Errors a clipboard watcher can report.
#[derive(Debug)]
pub enum WatcherError {
    /// Error from the polling clipboard backend.
    Arboard(String),
    /// The watcher was stopped because nobody receives its clips.
    WatcherStopped,
    /// A required binary, extension or file was not found.
    NotFound(String),
    /// An I/O error while watching the clipboard source.
    Io(String),
}

impl WatcherError {
    /// The error's message text.
    pub open spec fn message_text(&self) -> Seq<char> {
        match self {
            WatcherError::Arboard(m) => "arboard error: "@ + m@,
            WatcherError::WatcherStopped => "watcher stopped"@,
            WatcherError::NotFound(m) => "setup required: "@ + m@,
            WatcherError::Io(m) => "io error: "@ + m@,
        }
    }

    /// The error's message.
    pub fn message(&self) -> (s: String)
        ensures
            s@ == self.message_text(),
    {
        let mut v: Vec<char> = Vec::new();
        match self {
            WatcherError::Arboard(m) => {
                push_str(&mut v, "arboard error: ");
                push_str(&mut v, m.as_str());
            },
            WatcherError::WatcherStopped => {
                push_str(&mut v, "watcher stopped");
            },
            WatcherError::NotFound(m) => {
                push_str(&mut v, "setup required: ");
                push_str(&mut v, m.as_str());
            },
            WatcherError::Io(m) => {
                push_str(&mut v, "io error: ");
                push_str(&mut v, m.as_str());
            },
        }
        assert(v@ == self.message_text());
        string_from_chars(&v)
    }
}

/// Installed and enabled state of the GNOME Clipboard History extension.
#[derive(Debug)]
pub struct GchStatus {
    /// Whether the extension directory exists in a known location.
    pub installed: bool,
    /// Whether the extension is listed among the shell's enabled extensions.
    pub enabled: bool,
    /// Path of the extension's append-only database, if found.
    pub db_path: Option<String>,
    /// Path of the extension's installation directory, if found.
    pub extension_path: Option<String>,
}

impl GchStatus {
    /// The status for what the probes found: installed exactly when an
    /// extension directory was found.
    pub fn from_probes(extension_path: Option<String>, enabled: bool, db_path: Option<String>) -> (s:
        Self)
        ensures
            s.installed == extension_path is Some,
            s.enabled == enabled,
            s.db_path == db_path,
            s.extension_path == extension_path,
    {
        GchStatus { installed: extension_path.is_some(), enabled, db_path, extension_path }
    }
}

/// Watcher for the GNOME Clipboard History extension log.
pub struct GchWatcher {
    pub extension_id: String,
}

impl GchWatcher {
    /// A watcher for the default extension.
    pub fn new() -> (w: Self)
        ensures
            w.extension_id@ == EXTENSION_ID@,
    {
        let mut v: Vec<char> = Vec::new();
        push_str(&mut v, EXTENSION_ID);
        assert(v@ == EXTENSION_ID@);
        GchWatcher { extension_id: string_from_chars(&v) }
    }
}

/// Watcher for wlroots compositors through `wl-paste`.
pub struct WlrWatcher {
    pub wl_paste_path: String,
}

impl WlrWatcher {
    /// A watcher that finds `wl-paste` on the search path.
    pub fn new() -> (w: Self)
        ensures
            w.wl_paste_path@ == "wl-paste"@,
    {
        let mut v: Vec<char> = Vec::new();
        push_str(&mut v, "wl-paste");
        assert(v@ == "wl-paste"@);
        WlrWatcher { wl_paste_path: string_from_chars(&v) }
    }
}

/// Watcher that polls the clipboard.
pub struct ArboardWatcher {
    pub poll_interval_ms: u64,
}

impl ArboardWatcher {
    /// A watcher polling every `poll_interval_ms` milliseconds.
    pub fn new(poll_interval_ms: u64) -> (w: Self)
        ensures
            w.poll_interval_ms == poll_interval_ms,
    {
        ArboardWatcher { poll_interval_ms }
    }
}

/// Whether `ext_id` appears in the output of
/// `gsettings get org.gnome.shell enabled-extensions`.
pub fn enabled_from_gsettings(output: &str, ext_id: &str) -> (b: bool)
    ensures
        b == exists|at: int| occurs_at(output@, ext_id@, at),
{
    contains_chars(&chars_of(output), &chars_of(ext_id))
}

/// Index of the first zero byte of `buf` at or after `from`, if any.
pub open spec fn next_zero(buf: Seq<u8>, from: int) -> Option<int>
    decreases buf.len() - from,
{
    if from < 0 || from >= buf.len() {
        None
    } else if buf[from] == 0 {
        Some(from)
    } else {
        next_zero(buf, from + 1)
    }
}

pub proof fn lemma_next_zero(buf: Seq<u8>, from: int)
    ensures
        next_zero(buf, from) matches Some(t) ==> from <= t < buf.len() && buf[t] == 0 && forall|
            k: int,
        | from <= k < t ==> buf[k] != 0,
        next_zero(buf, from) is None && 0 <= from ==> forall|k: int| from <= k < buf.len() ==> buf[k]
            != 0,
    decreases buf.len() - from,
{
    if 0 <= from < buf.len() && buf[from] != 0 {
        lemma_next_zero(buf, from + 1);
    }
}

/// What one record contributes: the text of an add record whose body is
/// non-empty valid UTF-8.
pub open spec fn record_entry(op: u8, body: Seq<u8>) -> Seq<Seq<char>> {
    if op == OP_ADD && valid_utf8(body) && decode_utf8(body).len() > 0 {
        seq![decode_utf8(body)]
    } else {
        Seq::empty()
    }
}

/// The entries of the complete records of `buf` from byte `i` on, and the
/// position just past the last complete record. A record is an op byte, a
/// body, and a zero byte.
pub open spec fn parse_from(buf: Seq<u8>, i: int) -> (Seq<Seq<char>>, int)
    decreases buf.len() - i,
{
    if i < 0 || i >= buf.len() {
        (Seq::empty(), i)
    } else {
        match next_zero(buf, i + 1) {
            None => (Seq::empty(), i),
            Some(t) => {
                proof {
                    lemma_next_zero(buf, i + 1);
                }
                let rest = parse_from(buf, t + 1);
                (record_entry(buf[i], buf.subrange(i + 1, t)) + rest.0, rest.1)
            },
        }
    }
}

/// Calls `std::str::from_utf8`, which accepts exactly the valid UTF-8 byte
/// strings and then holds the characters they encode.
#[verifier::external_body]
fn utf8_text(bytes: &[u8]) -> (r: Option<String>)
    ensures
        match r {
            Some(s) => valid_utf8(bytes@) && s@ == decode_utf8(bytes@),
            None => !valid_utf8(bytes@),
        },
{
    std::str::from_utf8(bytes).ok().map(|s| s.to_string())
}

/// Parses the extension's log: the texts of the complete add records with
/// a non-empty body, and the number of bytes the complete records span.
pub fn parse_entries(buf: &[u8]) -> (r: (Vec<String>, usize))
    ensures
        r.0@.len() == parse_from(buf@, 0).0.len(),
        forall|k: int| 0 <= k < r.0@.len() ==> #[trigger] r.0@[k]@ == parse_from(buf@, 0).0[k],
        r.1 == parse_from(buf@, 0).1,
        r.1 <= buf@.len(),
{
    proof {
        lemma_parse_within(buf@, 0);
    }
    let n = buf.len();
    let mut out: Vec<String> = Vec::new();
    let mut i: usize = 0;
    let mut last_complete: usize = 0;
    let mut done = false;
    let ghost whole = parse_from(buf@, 0).0;
    while i < n && !done
        invariant
            n == buf@.len(),
            i <= n,
            last_complete == i,
            whole == parse_from(buf@, 0).0,
            out@.len() + parse_from(buf@, i as int).0.len() == whole.len(),
            forall|k: int| 0 <= k < out@.len() ==> #[trigger] out@[k]@ == whole[k],
            forall|k: int|
                0 <= k < parse_from(buf@, i as int).0.len() ==> whole[out@.len() + k]
                    == #[trigger] parse_from(buf@, i as int).0[k],
            parse_from(buf@, i as int).1 == parse_from(buf@, 0).1,
            done ==> parse_from(buf@, i as int).0.len() == 0 && parse_from(buf@, i as int).1 == i,
        decreases n - i, if done { 0int } else { 1int },
    {
        let op = buf[i];
        let body_start = i + 1;
        let mut t = body_start;
        while t < n && buf[t] != 0
            invariant
                n == buf@.len(),
                body_start <= t <= n,
                forall|k: int| body_start <= k < t ==> buf@[k] != 0,
            decreases n - t,
        {
            t = t + 1;
        }
        proof {
            lemma_next_zero(buf@, body_start as int);
            if t < n {
                assert(next_zero(buf@, body_start as int) == Some(t as int)) by {
                    if next_zero(buf@, body_start as int) is None {
                        assert(buf@[t as int] != 0);
                    } else {
                        let z = next_zero(buf@, body_start as int)->0;
                        assert(buf@[z] == 0);
                    }
                }
            } else {
                assert(next_zero(buf@, body_start as int) is None) by {
                    if let Some(z) = next_zero(buf@, body_start as int) {
                        assert(buf@[z] == 0);
                    }
                }
            }
        }
        if t == n {
            done = true;
        } else {
            let ghost rest = parse_from(buf@, t + 1);
            let ghost entry = record_entry(op, buf@.subrange(body_start as int, t as int));
            let ghost old_len = out@.len();
            let ghost old_out = out@;
            proof {
                assert(parse_from(buf@, i as int) == (entry + rest.0, rest.1));
            }
            if op == OP_ADD {
                let mut body: Vec<u8> = Vec::new();
                let mut k = body_start;
                while k < t
                    invariant
                        body_start <= k <= t < n,
                        n == buf@.len(),
                        body@ == buf@.subrange(body_start as int, k as int),
                    decreases t - k,
                {
                    body.push(buf[k]);
                    assert(buf@.subrange(body_start as int, k + 1) =~= buf@.subrange(
                        body_start as int,
                        k as int,
                    ).push(buf@[k as int]));
                    k = k + 1;
                }
                match utf8_text(body.as_slice()) {
                    Some(s) => {
                        if !s.as_str().is_empty() {
                            out.push(s);
                        }
                    },
                    None => {},
                }
            }
            proof {
                assert(out@.len() == old_len + entry.len());
                assert forall|k: int| old_len <= k < out@.len() implies #[trigger] out@[k]@ == entry[k
                    - old_len] by {}
                assert forall|k: int| 0 <= k < out@.len() implies #[trigger] out@[k]@ == whole[k] by {
                    if k >= old_len {
                        assert(parse_from(buf@, i as int).0[k - old_len] == entry[k - old_len]);
                        assert(whole[old_len + (k - old_len)] == parse_from(buf@, i as int).0[k
                            - old_len]);
                    } else {
                        assert(out@[k] == old_out[k]);
                    }
                }
                assert forall|k: int| 0 <= k < rest.0.len() implies whole[out@.len() + k]
                    == #[trigger] rest.0[k] by {
                    assert(parse_from(buf@, i as int).0[entry.len() + k] == rest.0[k]);
                    assert(whole[old_len + (entry.len() + k)] == parse_from(buf@, i as int).0[entry.len()
                        + k]);
                }
            }
            i = t + 1;
            last_complete = i;
        }
    }
    (out, last_complete)
}


/// A zero byte found inside `buf` is found at the same place once more
/// bytes follow.
proof fn lemma_next_zero_extend(buf: Seq<u8>, more: Seq<u8>, from: int)
    requires
        0 <= from,
        next_zero(buf, from) is Some,
    ensures
        next_zero(buf + more, from) == next_zero(buf, from),
    decreases buf.len() - from,
{
    let b = buf + more;
    assert(b[from] == buf[from]);
    if buf[from] != 0 {
        lemma_next_zero_extend(buf, more, from + 1);
    }
}

/// Searching for a zero byte from `j + k` is searching the bytes after `j`
/// from `k`.
proof fn lemma_next_zero_shift(b: Seq<u8>, j: int, k: int)
    requires
        0 <= j <= b.len(),
        0 <= k,
    ensures
        next_zero(b, j + k) == match next_zero(b.skip(j), k) {
            Some(t) => Some(t + j),
            None => None::<int>,
        },
    decreases b.len() - (j + k),
{
    let s = b.skip(j);
    if j + k < b.len() {
        assert(s[k] == b[j + k]);
        if b[j + k] != 0 {
            lemma_next_zero_shift(b, j, k + 1);
        }
    }
}

/// Parsing from `j + k` is parsing the bytes after `j` from `k`.
proof fn lemma_parse_shift(b: Seq<u8>, j: int, k: int)
    requires
        0 <= j <= b.len(),
        0 <= k,
    ensures
        parse_from(b, j + k).0 == parse_from(b.skip(j), k).0,
        parse_from(b, j + k).1 == j + parse_from(b.skip(j), k).1,
    decreases b.len() - (j + k),
{
    let s = b.skip(j);
    if j + k < b.len() {
        lemma_next_zero_shift(b, j, k + 1);
        match next_zero(s, k + 1) {
            None => {},
            Some(t) => {
                lemma_next_zero(s, k + 1);
                assert(s[k] == b[j + k]);
                assert(s.subrange(k + 1, t) =~= b.subrange(j + k + 1, t + j));
                lemma_parse_shift(b, j, t + 1);
            },
        }
    }
}

/// Records complete within `buf` parse the same once more bytes follow,
/// and parsing then goes on from where they end.
proof fn lemma_parse_extend(buf: Seq<u8>, more: Seq<u8>, i: int)
    requires
        0 <= i,
    ensures
        parse_from(buf + more, i).0 == parse_from(buf, i).0 + parse_from(
            buf + more,
            parse_from(buf, i).1,
        ).0,
        parse_from(buf + more, i).1 == parse_from(buf + more, parse_from(buf, i).1).1,
    decreases buf.len() - i,
{
    let b = buf + more;
    if i >= buf.len() {
        assert(parse_from(buf, i).0 + parse_from(b, i).0 =~= parse_from(b, i).0);
    } else {
        match next_zero(buf, i + 1) {
            None => {
                assert(parse_from(buf, i).0 + parse_from(b, i).0 =~= parse_from(b, i).0);
            },
            Some(t) => {
                lemma_next_zero(buf, i + 1);
                lemma_next_zero_extend(buf, more, i + 1);
                assert(b[i] == buf[i]);
                assert(b.subrange(i + 1, t) =~= buf.subrange(i + 1, t));
                lemma_parse_extend(buf, more, t + 1);
                let e = record_entry(buf[i], buf.subrange(i + 1, t));
                let rb = parse_from(buf, t + 1);
                assert(e + (rb.0 + parse_from(b, rb.1).0) =~= (e + rb.0) + parse_from(b, rb.1).0);
            },
        }
    }
}

/// Parsing a buffer reports a position within it.
proof fn lemma_parse_within(buf: Seq<u8>, i: int)
    requires
        0 <= i <= buf.len(),
    ensures
        i <= parse_from(buf, i).1 <= buf.len(),
    decreases buf.len() - i,
{
    if i < buf.len() {
        if let Some(t) = next_zero(buf, i + 1) {
            lemma_next_zero(buf, i + 1);
            lemma_parse_within(buf, t + 1);
        }
    }
}

proof fn lemma_parse_boundary_from(buf: Seq<u8>, i: int)
    requires
        0 <= i <= buf.len(),
    ensures
        ({
            let c = parse_from(buf, i).1;
            &&& c == i || (0 < c <= buf.len() && buf[c - 1] == 0)
            &&& c < buf.len() ==> next_zero(buf, c + 1) is None
        }),
    decreases buf.len() - i,
{
    if i < buf.len() {
        if let Some(t) = next_zero(buf, i + 1) {
            lemma_next_zero(buf, i + 1);
            lemma_parse_boundary_from(buf, t + 1);
        }
    }
}

/// Parsing stops at a record boundary, the start of the log or just past a
/// record's zero byte, and the bytes after it hold no complete record.
pub proof fn lemma_parse_boundary(buf: Seq<u8>)
    ensures
        parse_from(buf, 0).1 == 0 || buf[parse_from(buf, 0).1 - 1] == 0,
        parse_from(buf, 0).1 < buf.len() ==> next_zero(buf, parse_from(buf, 0).1 + 1) is None,
{
    lemma_parse_boundary_from(buf, 0);
}

/// Reading a log in pieces loses and repeats nothing: the records of
/// `buf`, followed by those parsed from the bytes after the position it
/// reports (with whatever was appended since), are the records of the
/// whole log, and the positions add up.
pub proof fn lemma_parse_resumes(buf: Seq<u8>, more: Seq<u8>)
    ensures
        0 <= parse_from(buf, 0).1 <= buf.len(),
        parse_from(buf + more, 0).0 == parse_from(buf, 0).0 + parse_from(
            (buf + more).skip(parse_from(buf, 0).1),
            0,
        ).0,
        parse_from(buf + more, 0).1 == parse_from(buf, 0).1 + parse_from(
            (buf + more).skip(parse_from(buf, 0).1),
            0,
        ).1,
{
    lemma_parse_within(buf, 0);
    let c = parse_from(buf, 0).1;
    lemma_parse_extend(buf, more, 0);
    lemma_parse_shift(buf + more, c, 0);
}


// ---------------------------------------------------------------------
// What the watchers decide between their reads.
// ---------------------------------------------------------------------
/// A text clip with no known source application.
pub fn text_clip(content: String) -> (c: NewClip)
    ensures
        c.content@ == content@,
        c.content_type@ == "text"@,
        c.source_app is None,
{
    NewClip { content, content_type: "text".to_string(), source_app: None }
}

/// The clip for one line `wl-paste --watch cat` printed: the line trimmed,
/// nothing for a blank line.
pub fn clip_from_line(raw: &str) -> (r: Option<NewClip>)
    ensures
        trimmed(raw@).len() == 0 ==> r is None,
        trimmed(raw@).len() > 0 ==> r is Some && r->0.content@ == trimmed(raw@)
            && r->0.content_type@ == "text"@ && r->0.source_app is None,
{
    let t = trim_str(raw);
    if t.is_empty() {
        return None;
    }
    Some(text_clip(t.to_string()))
}

/// One poll of the clipboard: `read` is the text it held, if it could be
/// read. A non-empty text other than the last one seen becomes a clip and
/// the last one seen; anything else changes nothing.
pub fn polled_clip(last_seen: &mut String, read: Option<String>) -> (r: Option<NewClip>)
    ensures
        match read {
            None => r is None && final(last_seen)@ == old(last_seen)@,
            Some(t) => if t@.len() == 0 || t@ == old(last_seen)@ {
                r is None && final(last_seen)@ == old(last_seen)@
            } else {
                r is Some && r->0.content@ == t@ && r->0.content_type@ == "text"@
                    && r->0.source_app is None && final(last_seen)@ == t@
            },
        },
{
    match read {
        None => None,
        Some(text) => {
            if text.as_str().is_empty() || crate::text::str_eq(text.as_str(), last_seen.as_str()) {
                return None;
            }
            *last_seen = text.clone();
            Some(text_clip(text))
        },
    }
}

/// Restarts of `wl-paste` in a row after which the watcher gives up.
pub const MAX_CONSECUTIVE_FAILURES: u32 = 5;

/// A run at least this many seconds long clears the count of failures.
pub const LONG_RUN_RESET_SECS: u64 = 60;

/// Longest wait before a restart, in seconds.
pub const MAX_BACKOFF_SECS: u64 = 30;

/// What to do after `wl-paste` exited.
#[derive(Debug)]
pub enum Restart {
    /// Stop watching with this error.
    GiveUp(WatcherError),
    /// Restart after `backoff_secs` seconds, with `failures` exits counted.
    After { failures: u32, backoff_secs: u64 },
}

/// `2^n`.
pub open spec fn pow2(n: nat) -> nat
    decreases n,
{
    if n == 0 {
        1
    } else {
        2 * pow2((n - 1) as nat)
    }
}

/// The failures counted once a run of `ran_secs` seconds has ended.
pub open spec fn failures_after(failures: u32, ran_secs: u64) -> nat {
    (if ran_secs >= LONG_RUN_RESET_SECS {
        0nat
    } else {
        failures as nat
    }) + 1
}

/// The decision after `wl-paste` exited, with `failures` exits counted
/// before and the run lasting `ran_secs` seconds: a long run clears the
/// count; past `MAX_CONSECUTIVE_FAILURES` exits the watcher gives up, and
/// otherwise it waits `2^(failures - 1)` seconds, at most `MAX_BACKOFF_SECS`.
pub fn restart_after_exit(failures: u32, ran_secs: u64) -> (r: Restart)
    requires
        failures <= MAX_CONSECUTIVE_FAILURES,
    ensures
        failures_after(failures, ran_secs) > MAX_CONSECUTIVE_FAILURES ==> (r matches Restart::GiveUp(
            WatcherError::Io(m),
        ) && m@ == "wl-paste exited repeatedly, giving up"@),
        failures_after(failures, ran_secs) <= MAX_CONSECUTIVE_FAILURES ==> r == (Restart::After {
            failures: failures_after(failures, ran_secs) as u32,
            backoff_secs: if pow2((failures_after(failures, ran_secs) - 1) as nat) <= MAX_BACKOFF_SECS {
                pow2((failures_after(failures, ran_secs) - 1) as nat) as u64
            } else {
                MAX_BACKOFF_SECS
            },
        }),
{
    let counted = if ran_secs >= LONG_RUN_RESET_SECS {
        0
    } else {
        failures
    };
    let f = counted + 1;
    if f > MAX_CONSECUTIVE_FAILURES {
        return Restart::GiveUp(WatcherError::Io("wl-paste exited repeatedly, giving up".to_string()));
    }
    let wait: u64 = if f == 1 {
        1
    } else if f == 2 {
        2
    } else if f == 3 {
        4
    } else if f == 4 {
        8
    } else {
        16
    };
    proof {
        reveal_with_fuel(pow2, 5);
    }
    assert(wait == pow2((f - 1) as nat));
    let backoff = if wait <= MAX_BACKOFF_SECS {
        wait
    } else {
        MAX_BACKOFF_SECS
    };
    Restart::After { failures: f, backoff_secs: backoff }
}

/// Where the extension's database stands.
#[derive(Debug)]
pub enum DbLookup {
    /// The database is at this path.
    Found(String),
    /// The extension is ready but has not written its database yet.
    Wait,
    /// Watching cannot start, for this reason.
    Failed(WatcherError),
}

/// Where to read clips from, given what detection found: the extension
/// must be installed and enabled; without a database yet, wait, unless the
/// wait has timed out.
pub fn db_lookup(status: GchStatus, timed_out: bool) -> (r: DbLookup)
    ensures
        !status.installed ==> (r matches DbLookup::Failed(WatcherError::NotFound(m)) && m@
            == "Clipboard History GNOME extension not found. Install it from extensions.gnome.org"@),
        status.installed && !status.enabled ==> (r matches DbLookup::Failed(WatcherError::NotFound(m))
            && m@
            == "Clipboard History extension is installed but not enabled. Enable it in GNOME Extensions."@),
        status.installed && status.enabled && status.db_path is Some ==> (r matches DbLookup::Found(p)
            && p == status.db_path->0),
        status.installed && status.enabled && status.db_path is None && timed_out ==> (r matches DbLookup::Failed(
            WatcherError::NotFound(m),
        ) && m@
            == "Clipboard History extension is enabled but has not recorded any clipboard data yet. Copy something, then restart SynaptClip."@),
        status.installed && status.enabled && status.db_path is None && !timed_out ==> r is Wait,
{
    if !status.installed {
        return DbLookup::Failed(
            WatcherError::NotFound(
                "Clipboard History GNOME extension not found. Install it from extensions.gnome.org".to_string(),
            ),
        );
    }
    if !status.enabled {
        return DbLookup::Failed(
            WatcherError::NotFound(
                "Clipboard History extension is installed but not enabled. Enable it in GNOME Extensions.".to_string(),
            ),
        );
    }
    match status.db_path {
        Some(p) => DbLookup::Found(p),
        None => if timed_out {
            DbLookup::Failed(
                WatcherError::NotFound(
                    "Clipboard History extension is enabled but has not recorded any clipboard data yet. Copy something, then restart SynaptClip.".to_string(),
                ),
            )
        } else {
            DbLookup::Wait
        },
    }
}

/// A change to the directory holding the extension's database.
#[derive(Debug)]
pub enum LogEvent {
    /// The database file was removed.
    Removed,
    /// The database file was created.
    Created,
    /// The database file was written to.
    Modified,
    /// Anything else.
    Other,
}

/// The read position after `event` and whether to read the log now: a
/// removed log starts over at zero and is not read, a created one starts
/// over and is read, a written one is read from where reading stopped.
pub fn log_event_step(offset: u64, event: LogEvent) -> (r: (u64, bool))
    ensures
        match event {
            LogEvent::Removed => r == (0u64, false),
            LogEvent::Created => r == (0u64, true),
            LogEvent::Modified => r == (offset, true),
            LogEvent::Other => r == (offset, false),
        },
{
    match event {
        LogEvent::Removed => (0, false),
        LogEvent::Created => (0, true),
        LogEvent::Modified => (offset, true),
        LogEvent::Other => (offset, false),
    }
}

/// The clips in the bytes read from position `offset` of the log, and the
/// position to read from next: just past the last complete record.
pub fn parse_tail(offset: u64, buf: &[u8]) -> (r: (Vec<String>, u64))
    requires
        offset + buf@.len() <= u64::MAX,
    ensures
        r.0@.len() == parse_from(buf@, 0).0.len(),
        forall|k: int| 0 <= k < r.0@.len() ==> #[trigger] r.0@[k]@ == parse_from(buf@, 0).0[k],
        r.1 == offset + parse_from(buf@, 0).1,
{
    let (entries, consumed) = parse_entries(buf);
    (entries, offset + consumed as u64)
}

} // verus!
