use synaptclip::tray::{launch_names, route_command, self_command_action, AppKind, SelfAction, TrayAction, TrayCommand};
use synaptclip::commands::{parse_i64, setting_effect, update_check_allowed, SettingEffect};
use synaptclip::synapt::send_status_message;
use synaptclip::clipboard::{
    clip_from_line, db_lookup, log_event_step, parse_tail, polled_clip, restart_after_exit, DbLookup, LogEvent,
    Restart,
};
use synaptclip::clipboard::{enabled_from_gsettings, parse_entries, GchStatus, WatcherError, EXTENSION_ID, OP_ADD, OP_DELETE, OP_MOVE};
use synaptclip::platform::{
    backend_status, detect_step, plist_contents, service_contents, service_file_content, session_is_wayland,
    session_is_x11, session_name, ClipboardBackend, DetectStep, HostOs, SessionFacts,
};
use synaptclip::synapt::{ensure_peer_sendable, rejection_reason, BridgeState, SynaptPeer};
use synaptclip::tray::tray_tooltip;

// Clipboard History extension log

#[test]
fn parse_add_entries() {
    let mut buf = Vec::new();
    buf.push(OP_ADD);
    buf.extend_from_slice(b"hello");
    buf.push(0x00);
    buf.push(OP_ADD);
    buf.extend_from_slice(b"world");
    buf.push(0x00);
    let (entries, consumed) = parse_entries(&buf);
    assert_eq!(entries, vec!["hello".to_string(), "world".to_string()]);
    assert_eq!(consumed, buf.len());
}

#[test]
fn parse_skips_delete_and_move() {
    let mut buf = Vec::new();
    buf.push(OP_ADD);
    buf.extend_from_slice(b"a");
    buf.push(0x00);
    buf.push(OP_DELETE);
    buf.push(0x00);
    buf.push(OP_MOVE);
    buf.push(0x00);
    buf.push(OP_ADD);
    buf.extend_from_slice(b"b");
    buf.push(0x00);
    let (entries, consumed) = parse_entries(&buf);
    assert_eq!(entries, vec!["a".to_string(), "b".to_string()]);
    assert_eq!(consumed, buf.len());
}

#[test]
fn parse_stops_at_incomplete_entry() {
    let mut buf = Vec::new();
    buf.push(OP_ADD);
    buf.extend_from_slice(b"done");
    buf.push(0x00);
    buf.push(OP_ADD);
    buf.extend_from_slice(b"incomplete");
    let (entries, consumed) = parse_entries(&buf);
    assert_eq!(entries, vec!["done".to_string()]);
    assert_eq!(consumed, 6);
}

#[test]
fn parse_skips_empty_and_invalid_bodies() {
    let buf = vec![OP_ADD, 0x00, OP_ADD, 0xff, 0xfe, 0x00, OP_ADD, b'o', b'k', 0x00];
    let (entries, consumed) = parse_entries(&buf);
    assert_eq!(entries, vec!["ok".to_string()]);
    assert_eq!(consumed, 10);
}

#[test]
fn enabled_parsing_matches_known_string() {
    let listed = "['background-logo@fedorahosted.org', \
                   'clipboard-history@alexsaveau.dev', \
                   'dash-to-dock@micxgx.gmail.com']";
    assert!(enabled_from_gsettings(listed, EXTENSION_ID));

    let absent = "['background-logo@fedorahosted.org', \
                   'dash-to-dock@micxgx.gmail.com']";
    assert!(!enabled_from_gsettings(absent, EXTENSION_ID));
}

#[test]
fn watcher_error_messages() {
    assert_eq!(WatcherError::NotFound("wl-paste".to_string()).message(), "setup required: wl-paste");
    assert_eq!(WatcherError::WatcherStopped.message(), "watcher stopped");
}

// Sending through Synapt

fn online_peer(id: &str) -> SynaptPeer {
    SynaptPeer {
        id: id.to_string(),
        name: "device".to_string(),
        ip: "192.168.1.10".to_string(),
        port: 54321,
        online: true,
        last_seen: "2025-03-14T10:22:00Z".to_string(),
    }
}

#[test]
fn send_rejected_when_bridge_inactive() {
    let bridge = BridgeState::inactive();
    let err = ensure_peer_sendable(&bridge, "peer-1").expect_err("should reject");
    assert_eq!(err, "Synapt is not running");
}

#[test]
fn send_rejected_when_peer_not_present() {
    let bridge = BridgeState {
        active: true,
        peers: vec![online_peer("peer-1")],
        api_version: Some("1".to_string()),
    };
    let err = ensure_peer_sendable(&bridge, "peer-unknown").expect_err("should reject");
    assert_eq!(err, "Peer not found or is offline");
}

#[test]
fn send_rejected_when_peer_offline() {
    let mut peer = online_peer("peer-1");
    peer.online = false;
    let bridge = BridgeState {
        active: true,
        peers: vec![peer],
        api_version: Some("1".to_string()),
    };
    let err = ensure_peer_sendable(&bridge, "peer-1").expect_err("should reject");
    assert_eq!(err, "Peer not found or is offline");
}

#[test]
fn send_allowed_for_online_peer() {
    let bridge = BridgeState {
        active: true,
        peers: vec![online_peer("peer-1")],
        api_version: Some("1".to_string()),
    };
    assert!(ensure_peer_sendable(&bridge, "peer-1").is_ok());
}

#[test]
fn inactive_has_no_peers() {
    let s = BridgeState::inactive();
    assert!(!s.active);
    assert!(s.peers.is_empty());
    assert!(s.api_version.is_none());
}

#[test]
fn rejects_non_text_content_type() {
    assert!(rejection_reason("image", "data").is_some());
}

#[test]
fn rejects_empty_content() {
    assert!(rejection_reason("text", "").is_some());
}

#[test]
fn accepts_valid_text() {
    assert!(rejection_reason("text", "hello").is_none());
}

#[test]
fn rejection_messages() {
    assert_eq!(rejection_reason("image", ""), Some("unsupported content_type"));
    assert_eq!(rejection_reason("text", ""), Some("empty content"));
}

// Tray tooltip

#[test]
fn inactive_shows_only_clip_count() {
    assert_eq!(tray_tooltip(0, false, 0), "SynaptClip — 0 clips");
    assert_eq!(tray_tooltip(1, false, 3), "SynaptClip — 1 clip");
    assert_eq!(tray_tooltip(12, false, 0), "SynaptClip — 12 clips");
}

#[test]
fn active_no_peers_appends_connected() {
    assert_eq!(tray_tooltip(5, true, 0), "SynaptClip — 5 clips, Synapt connected");
}

#[test]
fn active_one_peer_is_singular() {
    assert_eq!(tray_tooltip(5, true, 1), "SynaptClip — 5 clips, Synapt connected (1 device)");
}

#[test]
fn active_multiple_peers_is_plural() {
    assert_eq!(tray_tooltip(5, true, 2), "SynaptClip — 5 clips, Synapt connected (2 devices)");
}

#[test]
fn tooltip_counts_in_decimal() {
    assert_eq!(tray_tooltip(1030, true, 10), "SynaptClip — 1030 clips, Synapt connected (10 devices)");
}

// Start at login

#[test]
fn linux_service_contents_includes_exec_path() {
    let c = service_contents("/usr/bin/synaptclip");
    assert!(c.contains("ExecStart=/usr/bin/synaptclip"));
    assert!(c.contains("WantedBy=default.target"));
    assert!(c.contains("Description=SynaptClip clipboard manager"));
}

#[test]
fn macos_plist_contents_includes_exec_path() {
    let c = plist_contents("/Applications/SynaptClip.app/Contents/MacOS/synaptclip");
    assert!(c.contains("/Applications/SynaptClip.app/Contents/MacOS/synaptclip"));
    assert!(c.contains("io.aatish.synaptclip"));
}

#[test]
fn service_file_matches_unit_text() {
    assert_eq!(
        service_file_content("/opt/sc"),
        "[Unit]\nDescription=SynaptClip clipboard manager\nAfter=graphical-session.target\n\n[Service]\nType=simple\nExecStart=/opt/sc\nRestart=on-failure\nRestartSec=5\n\n[Install]\nWantedBy=default.target\n"
    );
}

// Backend detection

#[test]
fn wayland_detected_from_wayland_display_only() {
    let session_type = String::new();
    let wayland_display = Some("wayland-0".to_string());
    let is_wayland = session_is_wayland(&session_type, wayland_display.is_some());
    assert!(is_wayland);
}

#[test]
fn x11_detected_from_display_only() {
    let session_type = String::new();
    let wayland_display: Option<String> = None;
    let x11_display = Some(":0".to_string());
    let is_wayland = session_is_wayland(&session_type, wayland_display.is_some());
    let is_x11 = session_is_x11(&session_type, wayland_display.is_some(), x11_display.is_some());
    assert!(!is_wayland);
    assert!(is_x11);
}

fn linux_facts(session_type: &str, wayland: bool, x11: bool, desktop: &str) -> SessionFacts {
    SessionFacts {
        os: HostOs::Linux,
        gdk_backend: None,
        session_type: session_type.to_string(),
        wayland_display: wayland,
        x11_display: x11,
        desktop: desktop.to_string(),
    }
}

#[test]
fn gnome_wayland_asks_for_the_extension() {
    let facts = linux_facts("Wayland", true, true, "ubuntu:GNOME");
    assert!(matches!(detect_step(&facts, None, None), DetectStep::QueryGch));
    assert!(matches!(
        detect_step(&facts, None, Some((true, true))),
        DetectStep::Done(ClipboardBackend::GchFile)
    ));
    assert!(matches!(
        detect_step(&facts, None, Some((true, false))),
        DetectStep::Done(ClipboardBackend::GchNotEnabled)
    ));
    assert!(matches!(
        detect_step(&facts, None, Some((false, false))),
        DetectStep::Done(ClipboardBackend::Arboard)
    ));
    let no_x = linux_facts("wayland", true, false, "GNOME");
    assert!(matches!(
        detect_step(&no_x, None, Some((false, false))),
        DetectStep::Done(ClipboardBackend::GchNotInstalled)
    ));
}

#[test]
fn wlroots_wayland_probes_wl_paste() {
    let facts = linux_facts("wayland", true, false, "sway");
    assert!(matches!(detect_step(&facts, None, None), DetectStep::ProbeWlr));
    assert!(matches!(
        detect_step(&facts, Some(true), None),
        DetectStep::Done(ClipboardBackend::WlrDataControl)
    ));
    assert!(matches!(
        detect_step(&facts, Some(false), None),
        DetectStep::Done(ClipboardBackend::Unsupported)
    ));
    let mut forced = linux_facts("wayland", true, false, "sway");
    forced.gdk_backend = Some("x11".to_string());
    assert!(matches!(detect_step(&forced, None, None), DetectStep::Done(ClipboardBackend::Arboard)));
}

#[test]
fn session_names_and_status_text() {
    assert_eq!(session_name(&linux_facts("X11", false, true, "")), "x11");
    assert_eq!(session_name(&linux_facts("", false, false, "")), "unknown");
    let mut win = linux_facts("", false, false, "");
    win.os = HostOs::Windows;
    assert_eq!(session_name(&win), "windows");
    let info = backend_status(&ClipboardBackend::WlrDataControl, "wayland");
    assert_eq!(info.backend, "wlr");
    assert_eq!(info.session, "wayland");
    assert_eq!(info.detail, "wlroots Wayland — native wl-paste backend active.");
}

#[test]
fn parse_resumes_after_consumed_bytes() {
    let mut whole = Vec::new();
    whole.push(OP_ADD);
    whole.extend_from_slice(b"first");
    whole.push(0x00);
    whole.push(OP_ADD);
    whole.extend_from_slice(b"sec");
    let (early, consumed) = parse_entries(&whole);
    assert_eq!(early, vec!["first".to_string()]);
    assert_eq!(consumed, 7);
    whole.extend_from_slice(b"ond");
    whole.push(0x00);
    let (later, more) = parse_entries(&whole[consumed..]);
    assert_eq!(later, vec!["second".to_string()]);
    let (all, total) = parse_entries(&whole);
    assert_eq!(all, vec!["first".to_string(), "second".to_string()]);
    assert_eq!(total, consumed + more);
}

#[test]
fn gch_status_installed_follows_extension_path() {
    let found = GchStatus::from_probes(Some("/ext".to_string()), false, None);
    assert!(found.installed);
    assert!(!found.enabled);
    assert_eq!(found.extension_path.as_deref(), Some("/ext"));
    let missing = GchStatus::from_probes(None, true, Some("/db".to_string()));
    assert!(!missing.installed);
    assert!(missing.enabled);
    assert_eq!(missing.db_path.as_deref(), Some("/db"));
}

#[test]
fn wl_paste_lines_are_trimmed_and_blank_lines_skipped() {
    let clip = clip_from_line("  copied text \t").expect("a clip");
    assert_eq!(clip.content, "copied text");
    assert_eq!(clip.content_type, "text");
    assert!(clip.source_app.is_none());
    assert!(clip_from_line("   ").is_none());
    assert!(clip_from_line("").is_none());
}

#[test]
fn polling_reports_only_new_non_empty_text() {
    let mut last = String::new();
    assert!(polled_clip(&mut last, None).is_none());
    assert!(polled_clip(&mut last, Some(String::new())).is_none());
    let first = polled_clip(&mut last, Some("one".to_string())).expect("new text");
    assert_eq!(first.content, "one");
    assert_eq!(last, "one");
    assert!(polled_clip(&mut last, Some("one".to_string())).is_none());
    assert!(polled_clip(&mut last, None).is_none());
    assert_eq!(last, "one");
    let second = polled_clip(&mut last, Some("two".to_string())).expect("changed text");
    assert_eq!(second.content, "two");
    assert_eq!(last, "two");
}

#[test]
fn wl_paste_restarts_back_off_then_give_up() {
    let mut waits = Vec::new();
    let mut failures = 0u32;
    loop {
        match restart_after_exit(failures, 1) {
            Restart::After { failures: f, backoff_secs } => {
                failures = f;
                waits.push(backoff_secs);
            }
            Restart::GiveUp(e) => {
                assert_eq!(e.message(), "io error: wl-paste exited repeatedly, giving up");
                break;
            }
        }
    }
    assert_eq!(waits, vec![1, 2, 4, 8, 16]);
    match restart_after_exit(5, 60) {
        Restart::After { failures, backoff_secs } => {
            assert_eq!(failures, 1);
            assert_eq!(backoff_secs, 1);
        }
        Restart::GiveUp(_) => panic!("a long run clears the failures"),
    }
}

fn status(installed: bool, enabled: bool, db: Option<&str>) -> GchStatus {
    GchStatus::from_probes(installed.then(|| "/ext".to_string()), enabled, db.map(str::to_string))
}

#[test]
fn database_lookup_follows_extension_state() {
    match db_lookup(status(false, false, None), false) {
        DbLookup::Failed(WatcherError::NotFound(m)) => assert!(m.contains("not found")),
        other => panic!("{other:?}"),
    }
    match db_lookup(status(true, false, Some("/db")), false) {
        DbLookup::Failed(WatcherError::NotFound(m)) => assert!(m.contains("not enabled")),
        other => panic!("{other:?}"),
    }
    match db_lookup(status(true, true, Some("/db")), true) {
        DbLookup::Found(p) => assert_eq!(p, "/db"),
        other => panic!("{other:?}"),
    }
    assert!(matches!(db_lookup(status(true, true, None), false), DbLookup::Wait));
    match db_lookup(status(true, true, None), true) {
        DbLookup::Failed(WatcherError::NotFound(m)) => assert!(m.contains("has not recorded")),
        other => panic!("{other:?}"),
    }
}

#[test]
fn log_events_move_the_read_position() {
    assert_eq!(log_event_step(40, LogEvent::Removed), (0, false));
    assert_eq!(log_event_step(40, LogEvent::Created), (0, true));
    assert_eq!(log_event_step(40, LogEvent::Modified), (40, true));
    assert_eq!(log_event_step(40, LogEvent::Other), (40, false));
    let mut buf = vec![OP_ADD];
    buf.extend_from_slice(b"tail");
    buf.push(0x00);
    buf.push(OP_ADD);
    buf.extend_from_slice(b"part");
    let (entries, next) = parse_tail(100, &buf);
    assert_eq!(entries, vec!["tail".to_string()]);
    assert_eq!(next, 106);
}

#[test]
fn settings_set_off_their_effects() {
    assert!(matches!(setting_effect("history_limit", "200"), SettingEffect::EnforceHistoryLimit(200)));
    assert!(matches!(setting_effect("history_limit", "+7"), SettingEffect::EnforceHistoryLimit(7)));
    assert!(matches!(setting_effect("history_limit", "0"), SettingEffect::Nothing));
    assert!(matches!(setting_effect("history_limit", "-3"), SettingEffect::Nothing));
    assert!(matches!(setting_effect("history_limit", " 5"), SettingEffect::Nothing));
    assert!(matches!(setting_effect("history_limit", "many"), SettingEffect::Nothing));
    assert!(matches!(setting_effect("expiry_days", "30"), SettingEffect::ExpireOlderThanDays(30)));
    assert!(matches!(setting_effect("theme", "dark"), SettingEffect::ThemeChanged));
    assert!(matches!(setting_effect("hotkey", "Super+V"), SettingEffect::RegisterHotkey));
    assert!(matches!(setting_effect("font_size", "12"), SettingEffect::Nothing));
}

#[test]
fn send_status_codes_map_to_messages() {
    assert_eq!(send_status_message(202), None);
    assert_eq!(send_status_message(404).as_deref(), Some("Peer is no longer available"));
    assert_eq!(send_status_message(422).as_deref(), Some("Invalid request"));
    assert_eq!(send_status_message(503).as_deref(), Some("Synapt transfer service is not available"));
    assert_eq!(send_status_message(500).as_deref(), Some("Unexpected status: 500"));
    assert_eq!(send_status_message(7).as_deref(), Some("Unexpected status: 7"));
}

#[test]
fn tray_commands_are_routed_to_their_app() {
    assert_eq!(route_command(TrayCommand::Show { app: AppKind::SynaptClip }), TrayAction::ShowSelf);
    assert_eq!(route_command(TrayCommand::Toggle { app: AppKind::SynaptClip }), TrayAction::ToggleSelf);
    assert_eq!(
        route_command(TrayCommand::Show { app: AppKind::Synapt }),
        TrayAction::Forward(AppKind::Synapt)
    );
    assert_eq!(
        route_command(TrayCommand::Toggle { app: AppKind::Synapt }),
        TrayAction::Forward(AppKind::Synapt)
    );
    assert_eq!(route_command(TrayCommand::Quit), TrayAction::ConfirmQuit);
    assert_eq!(route_command(TrayCommand::Register { app: AppKind::Synapt }), TrayAction::Ignore);
    assert_eq!(self_command_action(TrayCommand::Show { app: AppKind::SynaptClip }), SelfAction::Show);
    assert_eq!(self_command_action(TrayCommand::Show { app: AppKind::Synapt }), SelfAction::Ignore);
    assert_eq!(self_command_action(TrayCommand::Quit), SelfAction::Exit);
    assert_eq!(launch_names(AppKind::Synapt), vec!["synapt", "Synapt"]);
    assert_eq!(launch_names(AppKind::SynaptClip).len(), 3);
}

#[test]
fn crash_report_lists_build_and_panic() {
    let report = synaptclip::crash::crash_report("1.2.3", "2026-01-01T00:00:00+00:00", "linux", "x86_64", "src/a.rs:1:2", "boom");
    assert_eq!(
        report,
        "SynaptClip crash report\n=======================\nVersion:   1.2.3\nTimestamp: 2026-01-01T00:00:00+00:00\nOS:        linux x86_64\n\nPanic location: src/a.rs:1:2\nPanic message:  boom\n\nPlease report this at https://github.com/aatishbagal/synapt-clip/issues\nAttach this file when filing the report.\n\n"
    );
}

fn peer(id: &str, online: bool) -> SynaptPeer {
    SynaptPeer {
        id: id.to_string(),
        name: "device".to_string(),
        ip: "192.168.1.10".to_string(),
        port: 54321,
        online,
        last_seen: "2025-03-14T10:22:00Z".to_string(),
    }
}

#[test]
fn bridge_announces_only_transitions() {
    let up = synaptclip::synapt::bridge_step(false, true, Some(vec![peer("p1", true)]));
    assert!(up.active && up.emit);
    let st = up.store.expect("stored");
    assert!(st.active);
    assert_eq!(st.peers.len(), 1);
    assert_eq!(st.api_version.as_deref(), Some("1"));
    let still_up = synaptclip::synapt::bridge_step(true, true, None);
    assert!(still_up.active && !still_up.emit);
    assert_eq!(still_up.store.expect("stored every poll").peers.len(), 0);
    let down = synaptclip::synapt::bridge_step(true, false, None);
    assert!(!down.active && down.emit);
    assert!(!down.store.expect("inactive stored").active);
    let still_down = synaptclip::synapt::bridge_step(false, false, None);
    assert!(!still_down.active && !still_down.emit && still_down.store.is_none());
}

#[test]
fn update_check_runs_unless_switched_off() {

    assert!(update_check_allowed(None));
    assert!(update_check_allowed(Some("true")));
    assert!(update_check_allowed(Some("False")));
    assert!(!update_check_allowed(Some("false")));
}

#[test]
fn parsing_stops_just_past_a_record() {
    let mut buf = vec![OP_ADD];
    buf.extend_from_slice(b"one");
    buf.push(0x00);
    buf.push(OP_DELETE);
    buf.extend_from_slice(b"partial");
    let (_, consumed) = parse_entries(&buf);
    assert_eq!(consumed, 5);
    assert_eq!(buf[consumed - 1], 0x00);
    assert!(!buf[consumed + 1..].contains(&0x00));
}

#[test]
fn parse_i64_reads_signed_decimals() {
    assert_eq!(parse_i64("42"), Some(42));
    assert_eq!(parse_i64("+7"), Some(7));
    assert_eq!(parse_i64("-15"), Some(-15));
    assert_eq!(parse_i64("9223372036854775807"), Some(i64::MAX));
    assert_eq!(parse_i64("-9223372036854775808"), Some(i64::MIN));
    assert_eq!(parse_i64("9223372036854775808"), None);
    assert_eq!(parse_i64("-9223372036854775809"), None);
    assert_eq!(parse_i64("123456789012345678901234567890"), None);
    assert_eq!(parse_i64(""), None);
    assert_eq!(parse_i64("-"), None);
    assert_eq!(parse_i64("1a"), None);
    assert_eq!(parse_i64(" 1"), None);
    assert_eq!(parse_i64("007"), Some(7));
}
