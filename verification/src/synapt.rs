//! The Synapt bridge state and the rules for receiving and sending clips
//! through Synapt.
use crate::text::{decimal, decimal_chars, push_chars, push_str, str_eq, string_from_chars};
use vstd::prelude::*;

verus! {

broadcast use vstd::string::group_string_axioms;

/// A peer device reported by Synapt.
#[derive(Debug)]
pub struct SynaptPeer {
    /// Stable identifier of the peer.
    pub id: String,
    /// Display name of the peer.
    pub name: String,
    /// IPv4 address of the peer.
    pub ip: String,
    /// Synapt transfer port on the peer.
    pub port: u16,
    /// Whether the peer was seen recently.
    pub online: bool,
    /// Time of the last discovery response.
    pub last_seen: String,
}

/// Current state of the bridge.
#[derive(Debug)]
pub struct BridgeState {
    /// Whether Synapt is reachable.
    pub active: bool,
    /// Peers discovered by Synapt; empty when inactive.
    pub peers: Vec<SynaptPeer>,
    /// Synapt API version, when active.
    pub api_version: Option<String>,
}

impl BridgeState {
    /// The state used whenever Synapt is not reachable.
    pub fn inactive() -> (s: Self)
        ensures
            !s.active,
            s.peers@.len() == 0,
            s.api_version is None,
    {
        BridgeState { active: false, peers: Vec::new(), api_version: None }
    }
}

/// The bridge lists an online peer with this id.
pub open spec fn has_online_peer(bridge: &BridgeState, peer_id: Seq<char>) -> bool {
    exists|k: int|
        0 <= k < bridge.peers@.len() && #[trigger] bridge.peers@[k].id@ == peer_id
            && bridge.peers@[k].online
}

fn text(s: &str) -> (r: String)
    ensures
        r@ == s@,
{
    let mut v: Vec<char> = Vec::new();
    push_str(&mut v, s);
    assert(v@ =~= s@);
    string_from_chars(&v)
}

/// Checks that a clip can be sent to `peer_id`: the bridge is active and
/// the peer is present and online.
pub fn ensure_peer_sendable(bridge: &BridgeState, peer_id: &str) -> (r: Result<(), String>)
    ensures
        !bridge.active ==> (r matches Err(e) && e@ == "Synapt is not running"@),
        bridge.active && !has_online_peer(bridge, peer_id@) ==> (r matches Err(e) && e@
            == "Peer not found or is offline"@),
        bridge.active && has_online_peer(bridge, peer_id@) ==> r is Ok,
{
    if !bridge.active {
        return Err(text("Synapt is not running"));
    }
    let mut k: usize = 0;
    while k < bridge.peers.len()
        invariant
            bridge.active,
            k <= bridge.peers@.len(),
            forall|j: int|
                0 <= j < k ==> !(#[trigger] bridge.peers@[j].id@ == peer_id@ && bridge.peers@[j].online),
        decreases bridge.peers@.len() - k,
    {
        let p = &bridge.peers[k];
        if str_eq(p.id.as_str(), peer_id) && p.online {
            return Ok(());
        }
        k = k + 1;
    }
    Err(text("Peer not found or is offline"))
}

/// Why a received clip must be refused, if it must: only non-empty text
/// content is accepted.
pub fn rejection_reason(content_type: &str, content: &str) -> (r: Option<&'static str>)
    ensures
        content_type@ != "text"@ ==> (r matches Some(m) && m@ == "unsupported content_type"@),
        content_type@ == "text"@ && content@.len() == 0 ==> (r matches Some(m) && m@
            == "empty content"@),
        content_type@ == "text"@ && content@.len() > 0 ==> r is None,
{
    if !str_eq(content_type, "text") {
        return Some("unsupported content_type");
    }
    if content.is_empty() {
        return Some("empty content");
    }
    None
}


/// Why Synapt refused a send request, from its status code; nothing for
/// `202 Accepted`, whose body holds the transfer.
pub open spec fn send_status_error(status: u16) -> Option<Seq<char>> {
    if status == 202 {
        None
    } else if status == 404 {
        Some("Peer is no longer available"@)
    } else if status == 422 {
        Some("Invalid request"@)
    } else if status == 503 {
        Some("Synapt transfer service is not available"@)
    } else {
        Some("Unexpected status: "@ + decimal(status as nat))
    }
}

/// The error message for Synapt's answer `status` to a send request, or
/// nothing when it accepted the request.
pub fn send_status_message(status: u16) -> (r: Option<String>)
    ensures
        match send_status_error(status) {
            None => r is None,
            Some(m) => r is Some && r->0@ == m,
        },
{
    if status == 202 {
        None
    } else if status == 404 {
        Some(text("Peer is no longer available"))
    } else if status == 422 {
        Some(text("Invalid request"))
    } else if status == 503 {
        Some(text("Synapt transfer service is not available"))
    } else {
        let mut v: Vec<char> = Vec::new();
        push_str(&mut v, "Unexpected status: ");
        let digits = decimal_chars(status as usize);
        push_chars(&mut v, &digits);
        Some(string_from_chars(&v))
    }
}


/// What one health poll of Synapt leads to.
#[derive(Debug)]
pub struct BridgeStep {
    /// The state to store, if it changes.
    pub store: Option<BridgeState>,
    /// Whether to tell the frontend about the stored state.
    pub emit: bool,
    /// Whether Synapt counts as running from now on.
    pub active: bool,
}

/// The outcome of a health poll, given whether Synapt was running before,
/// whether it answered, and the peers it listed if asked: while it answers
/// the state is stored on every poll and announced when it comes up; when
/// it stops answering the inactive state is stored and announced once.
pub fn bridge_step(was_active: bool, healthy: bool, peers: Option<Vec<SynaptPeer>>) -> (r: BridgeStep)
    ensures
        r.active == healthy,
        healthy ==> r.emit == !was_active && r.store is Some && r.store->0.active
            && r.store->0.api_version is Some && r.store->0.api_version->0@ == "1"@
            && r.store->0.peers@ == match peers {
            Some(p) => p@,
            None => Seq::empty(),
        },
        !healthy && was_active ==> r.emit && r.store is Some && !r.store->0.active
            && r.store->0.peers@.len() == 0 && r.store->0.api_version is None,
        !healthy && !was_active ==> !r.emit && r.store is None,
{
    if healthy {
        let listed = match peers {
            Some(p) => p,
            None => Vec::new(),
        };
        BridgeStep {
            store: Some(BridgeState { active: true, peers: listed, api_version: Some(text("1")) }),
            emit: !was_active,
            active: true,
        }
    } else if was_active {
        BridgeStep { store: Some(BridgeState::inactive()), emit: true, active: false }
    } else {
        BridgeStep { store: None, emit: false, active: false }
    }
}

} // verus!
