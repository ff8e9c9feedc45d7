//! The tray icon tooltip, composed in one place so the clip count and the
//! Synapt bridge status never overwrite each other, and the routing of the
//! shared tray menu between the Synapt apps.
use crate::text::{decimal, decimal_chars, push_chars, push_str, string_from_chars};
use vstd::prelude::*;

verus! {

broadcast use vstd::string::group_string_axioms;

/// The tooltip text for a clip count and the bridge state: the bridge part
/// appears only while Synapt is connected.
pub open spec fn tooltip_text(clip_count: nat, bridge_active: bool, peer_count: nat) -> Seq<char> {
    let base = "SynaptClip — "@ + decimal(clip_count) + if clip_count == 1 {
        " clip"@
    } else {
        " clips"@
    };
    if !bridge_active {
        base
    } else if peer_count == 0 {
        base + ", Synapt connected"@
    } else {
        base + ", Synapt connected ("@ + decimal(peer_count) + if peer_count == 1 {
            " device"@
        } else {
            " devices"@
        } + ")"@
    }
}

/// Composes the tray tooltip from the clip count and the bridge state.
pub fn tray_tooltip(clip_count: usize, bridge_active: bool, peer_count: usize) -> (s: String)
    ensures
        s@ == tooltip_text(clip_count as nat, bridge_active, peer_count as nat),
{
    let mut v: Vec<char> = Vec::new();
    push_str(&mut v, "SynaptClip — ");
    push_chars(&mut v, &decimal_chars(clip_count));
    if clip_count == 1 {
        push_str(&mut v, " clip");
    } else {
        push_str(&mut v, " clips");
    }
    if bridge_active {
        if peer_count > 0 {
            push_str(&mut v, ", Synapt connected (");
            push_chars(&mut v, &decimal_chars(peer_count));
            if peer_count == 1 {
                push_str(&mut v, " device");
            } else {
                push_str(&mut v, " devices");
            }
            push_str(&mut v, ")");
        } else {
            push_str(&mut v, ", Synapt connected");
        }
    }
    string_from_chars(&v)
}


/// The Synapt apps that share one tray icon.
#[derive(Debug, PartialEq, Eq, Structural, Clone, Copy)]
pub enum AppKind {
    Synapt,
    SynaptClip,
}

/// A tray menu command.
#[derive(Debug, PartialEq, Eq, Structural, Clone, Copy)]
pub enum TrayCommand {
    /// Show the app's window.
    Show { app: AppKind },
    /// Show or hide the app's window.
    Toggle { app: AppKind },
    /// Quit every app.
    Quit,
    /// An app announces itself to the tray host.
    Register { app: AppKind },
}

/// What the tray host does with a menu command.
#[derive(Debug, PartialEq, Eq, Structural, Clone, Copy)]
pub enum TrayAction {
    /// Show this app's window.
    ShowSelf,
    /// Show or hide this app's window.
    ToggleSelf,
    /// Send the command to the other app, launching it if it is not
    /// connected.
    Forward(AppKind),
    /// Ask the user, then tell every app to quit.
    ConfirmQuit,
    /// Nothing.
    Ignore,
}

/// What a forwarded command makes this app do.
#[derive(Debug, PartialEq, Eq, Structural, Clone, Copy)]
pub enum SelfAction {
    Show,
    Toggle,
    Exit,
    Ignore,
}

/// This app.
pub const SELF_KIND: AppKind = AppKind::SynaptClip;

/// How the tray host routes a menu command: its own window it shows or
/// toggles itself, the other app's it forwards, and Quit it confirms.
pub fn route_command(cmd: TrayCommand) -> (r: TrayAction)
    ensures
        r == match cmd {
            TrayCommand::Show { app } => if app == SELF_KIND {
                TrayAction::ShowSelf
            } else {
                TrayAction::Forward(app)
            },
            TrayCommand::Toggle { app } => if app == SELF_KIND {
                TrayAction::ToggleSelf
            } else {
                TrayAction::Forward(app)
            },
            TrayCommand::Quit => TrayAction::ConfirmQuit,
            TrayCommand::Register { .. } => TrayAction::Ignore,
        },
{
    match cmd {
        TrayCommand::Show { app } => match app {
            AppKind::SynaptClip => TrayAction::ShowSelf,
            AppKind::Synapt => TrayAction::Forward(app),
        },
        TrayCommand::Toggle { app } => match app {
            AppKind::SynaptClip => TrayAction::ToggleSelf,
            AppKind::Synapt => TrayAction::Forward(app),
        },
        TrayCommand::Quit => TrayAction::ConfirmQuit,
        TrayCommand::Register { .. } => TrayAction::Ignore,
    }
}

/// What this app does with a command the tray host sent it: show or
/// toggle its window when the command names it, exit on Quit, which the
/// host already confirmed.
pub fn self_command_action(cmd: TrayCommand) -> (r: SelfAction)
    ensures
        r == match cmd {
            TrayCommand::Show { app } => if app == SELF_KIND {
                SelfAction::Show
            } else {
                SelfAction::Ignore
            },
            TrayCommand::Toggle { app } => if app == SELF_KIND {
                SelfAction::Toggle
            } else {
                SelfAction::Ignore
            },
            TrayCommand::Quit => SelfAction::Exit,
            TrayCommand::Register { .. } => SelfAction::Ignore,
        },
{
    match cmd {
        TrayCommand::Show { app: AppKind::SynaptClip } => SelfAction::Show,
        TrayCommand::Toggle { app: AppKind::SynaptClip } => SelfAction::Toggle,
        TrayCommand::Quit => SelfAction::Exit,
        _ => SelfAction::Ignore,
    }
}

/// The program names an app may be installed under, tried in order when it
/// must be launched.
pub fn launch_names(kind: AppKind) -> (r: Vec<&'static str>)
    ensures
        kind == AppKind::SynaptClip ==> r@.len() == 3 && r@[0]@ == "synaptclip"@ && r@[1]@
            == "synapt-clip"@ && r@[2]@ == "SynaptClip"@,
        kind == AppKind::Synapt ==> r@.len() == 2 && r@[0]@ == "synapt"@ && r@[1]@ == "Synapt"@,
{
    match kind {
        AppKind::SynaptClip => vec!["synaptclip", "synapt-clip", "SynaptClip"],
        AppKind::Synapt => vec!["synapt", "Synapt"],
    }
}

} // verus!
