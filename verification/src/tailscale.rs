//! Control of Tailscale through its command-line interface.
//!
//! The commands are described as [`Invocation`]s; what `tailscale status
//! --json` reports arrives as a [`TailscaleStatus`], from which the machines
//! of the network and the exit nodes on offer are read.
use vstd::prelude::*;
use vstd::string::*;
use crate::command::{
    decode_lossy, push_text, strings_view, utf8_lossy, CommandOutput, Invocation, InvocationView,
};
use crate::text::{concat_str, contains, contains_str, eq_str, trim_end_char, trim_end_char_str};

verus! {

#[verifier::external_type_specification]
#[verifier::external_body]
pub struct ExJsonError(serde_json::Error);

/// The `tailscale` program.
pub const TAILSCALE: &'static str = "tailscale";

/// The backend state of a running daemon.
pub const RUNNING: &'static str = "Running";

/// What the daemon's error output says when it is stopped.
pub const NOT_RUNNING_MESSAGE: &'static str = "Tailscale is not running";

/// What the command's error output says when it cannot reach the daemon.
pub const NO_DAEMON_MESSAGE: &'static str = "Cannot connect to the Tailscale daemon";

/// A machine of the network.
#[derive(Clone, Debug)]
pub struct MachineData {
    pub ip: String,
    pub hostname: String,
    pub online: bool,
    pub is_exit_node: bool,
}

/// A machine that offers itself as an exit node.
#[derive(Clone, Debug)]
pub struct ExitNodeData {
    pub hostname: String,
    pub ip: String,
}

/// An exit node of a VPN provider, at a location.
#[derive(Debug)]
pub struct VPNNodeData {
    pub hostname: String,
    pub country: String,
    pub city: String,
    pub is_exit_node: bool,
}

/// An exit node on offer.
#[derive(Debug)]
pub enum ExitNode {
    VPN(VPNNodeData),
    Machine(ExitNodeData),
}

/// Where a peer is located.
#[derive(Debug)]
pub struct PeerLocation {
    pub country: String,
    pub city: String,
}

/// A node as `tailscale status --json` describes it.
#[derive(Debug)]
pub struct PeerInfo {
    pub host_name: String,
    pub dns_name: String,
    pub tailscale_i_ps: Vec<String>,
    pub online: bool,
    pub exit_node: bool,
    pub exit_node_option: bool,
    pub location: Option<PeerLocation>,
}

/// What `tailscale status --json` reports. The peers stand in the order in
/// which the report's map of peers is walked.
#[derive(Debug)]
pub struct TailscaleStatus {
    pub backend_state: String,
    pub self_node: Option<PeerInfo>,
    pub peer: Vec<PeerInfo>,
}

/// The errors that talking to Tailscale can meet.
#[derive(Debug)]
pub enum TailscaleError {
    /// The command could not be started.
    CommandError(std::io::Error),
    /// The command failed, with its error output.
    CommandFailed(String),
    /// The daemon is stopped.
    DaemonStopped,
    /// The report is not the JSON that was expected.
    JsonError(serde_json::Error),
}

impl TailscaleError {
    /// The text of the error, as its `Display` prints it.
    pub fn message(&self) -> (s: String)
        ensures
            match self {
                TailscaleError::CommandError(e) => exists|t: String|
                    to_string_from_display_ensures::<std::io::Error>(e, t) && s@
                        == "Failed to execute tailscale command: "@ + t@,
                TailscaleError::CommandFailed(stderr) => s@
                    == "Tailscale command failed with stderr: "@ + stderr@,
                TailscaleError::DaemonStopped => s@ == "Tailscale daemon is stopped."@,
                TailscaleError::JsonError(e) => exists|t: String|
                    to_string_from_display_ensures::<serde_json::Error>(e, t) && s@
                        == "Failed to parse JSON: "@ + t@,
            },
    {
        match self {
            TailscaleError::CommandError(e) => {
                let t = e.to_string();
                concat_str("Failed to execute tailscale command: ", t.as_str())
            },
            TailscaleError::CommandFailed(stderr) => {
                concat_str("Tailscale command failed with stderr: ", stderr.as_str())
            },
            TailscaleError::DaemonStopped => String::from_str("Tailscale daemon is stopped."),
            TailscaleError::JsonError(e) => {
                let t = e.to_string();
                concat_str("Failed to parse JSON: ", t.as_str())
            },
        }
    }
}

/// Talks to Tailscale.
pub struct Tailscale;

// ---------------------------------------------------------------------------
// Views
// ---------------------------------------------------------------------------

pub struct MachineView {
    pub ip: Seq<char>,
    pub hostname: Seq<char>,
    pub online: bool,
    pub is_exit_node: bool,
}

impl View for MachineData {
    type V = MachineView;

    open spec fn view(&self) -> MachineView {
        MachineView {
            ip: self.ip@,
            hostname: self.hostname@,
            online: self.online,
            is_exit_node: self.is_exit_node,
        }
    }
}

pub enum ExitNodeView {
    VPN { hostname: Seq<char>, country: Seq<char>, city: Seq<char>, is_exit_node: bool },
    Machine { hostname: Seq<char>, ip: Seq<char> },
}

impl View for ExitNode {
    type V = ExitNodeView;

    open spec fn view(&self) -> ExitNodeView {
        match self {
            ExitNode::VPN(v) => ExitNodeView::VPN {
                hostname: v.hostname@,
                country: v.country@,
                city: v.city@,
                is_exit_node: v.is_exit_node,
            },
            ExitNode::Machine(m) => ExitNodeView::Machine { hostname: m.hostname@, ip: m.ip@ },
        }
    }
}

pub struct LocationView {
    pub country: Seq<char>,
    pub city: Seq<char>,
}

pub struct PeerView {
    pub host_name: Seq<char>,
    pub dns_name: Seq<char>,
    pub ips: Seq<Seq<char>>,
    pub online: bool,
    pub exit_node: bool,
    pub exit_node_option: bool,
    pub location: Option<LocationView>,
}

impl View for PeerInfo {
    type V = PeerView;

    open spec fn view(&self) -> PeerView {
        PeerView {
            host_name: self.host_name@,
            dns_name: self.dns_name@,
            ips: strings_view(self.tailscale_i_ps@),
            online: self.online,
            exit_node: self.exit_node,
            exit_node_option: self.exit_node_option,
            location: match self.location {
                Some(l) => Some(LocationView { country: l.country@, city: l.city@ }),
                None => None,
            },
        }
    }
}

pub struct StatusView {
    pub backend_state: Seq<char>,
    pub self_node: Option<PeerView>,
    pub peers: Seq<PeerView>,
}

impl View for TailscaleStatus {
    type V = StatusView;

    open spec fn view(&self) -> StatusView {
        StatusView {
            backend_state: self.backend_state@,
            self_node: match self.self_node {
                Some(p) => Some(p@),
                None => None,
            },
            peers: peers_view(self.peer@),
        }
    }
}

pub open spec fn peers_view(v: Seq<PeerInfo>) -> Seq<PeerView> {
    v.map_values(|p: PeerInfo| p@)
}

pub open spec fn machines_view(v: Seq<MachineData>) -> Seq<MachineView> {
    v.map_values(|m: MachineData| m@)
}

pub open spec fn exit_nodes_view(v: Seq<ExitNode>) -> Seq<ExitNodeView> {
    v.map_values(|e: ExitNode| e@)
}

// ---------------------------------------------------------------------------
// What the report says
// ---------------------------------------------------------------------------

/// The first address of a peer, or the empty text when it has none.
pub open spec fn first_ip(p: PeerView) -> Seq<char> {
    if p.ips.len() > 0 {
        p.ips[0]
    } else {
        seq![]
    }
}

/// A peer as a machine of the network.
pub open spec fn machine_of(p: PeerView) -> MachineView {
    MachineView { ip: first_ip(p), hostname: p.host_name, online: p.online, is_exit_node: p.exit_node }
}

/// A VPN provider's node: one that offers to be an exit node and has a location.
pub open spec fn is_vpn_peer(p: PeerView) -> bool {
    p.exit_node_option && p.location is Some
}

/// The machines of the network, from the peers in the order walked: VPN
/// nodes are left out; each online machine goes to the front, each offline
/// one to the back.
pub open spec fn machines_of(peers: Seq<PeerView>) -> Seq<MachineView>
    decreases peers.len(),
{
    if peers.len() == 0 {
        seq![]
    } else {
        let rest = machines_of(peers.drop_last());
        let p = peers.last();
        if is_vpn_peer(p) {
            rest
        } else if p.online {
            seq![machine_of(p)] + rest
        } else {
            rest.push(machine_of(p))
        }
    }
}

/// The peers whose `exit_node` flag is `flag`, in order.
pub open spec fn with_exit_flag(peers: Seq<PeerView>, flag: bool) -> Seq<PeerView>
    decreases peers.len(),
{
    if peers.len() == 0 {
        seq![]
    } else if peers.last().exit_node == flag {
        with_exit_flag(peers.drop_last(), flag).push(peers.last())
    } else {
        with_exit_flag(peers.drop_last(), flag)
    }
}

/// The peers as a stable sort puts them that orders the current exit node
/// first.
pub open spec fn exit_preference_order(peers: Seq<PeerView>) -> Seq<PeerView> {
    with_exit_flag(peers, true) + with_exit_flag(peers, false)
}

/// The country and city of a VPN entry.
pub open spec fn vpn_city(e: ExitNodeView) -> Option<(Seq<char>, Seq<char>)> {
    match e {
        ExitNodeView::VPN { country, city, .. } => Some((country, city)),
        ExitNodeView::Machine { .. } => None,
    }
}

/// Whether an entry is a VPN node that is the current exit node.
pub open spec fn vpn_active(e: ExitNodeView) -> bool {
    match e {
        ExitNodeView::VPN { is_exit_node, .. } => is_exit_node,
        ExitNodeView::Machine { .. } => false,
    }
}

/// Some VPN entry of `nodes` is at this country and city.
pub open spec fn has_city(nodes: Seq<ExitNodeView>, country: Seq<char>, city: Seq<char>) -> bool {
    exists|i: int| 0 <= i < nodes.len() && #[trigger] vpn_city(nodes[i]) == Some((country, city))
}

/// The host name under which a peer is chosen as exit node: its DNS name
/// without trailing dots.
pub open spec fn exit_host(p: PeerView) -> Seq<char> {
    trim_end_char(p.dns_name, '.')
}

/// What one peer adds to the exit nodes found so far.
pub open spec fn exit_step(nodes: Seq<ExitNodeView>, p: PeerView) -> Seq<ExitNodeView> {
    if !p.exit_node_option {
        nodes
    } else {
        match p.location {
            Some(loc) => if has_city(nodes, loc.country, loc.city) {
                nodes
            } else {
                nodes.push(
                    ExitNodeView::VPN {
                        hostname: exit_host(p),
                        country: loc.country,
                        city: loc.city,
                        is_exit_node: p.exit_node,
                    },
                )
            },
            None => nodes.push(ExitNodeView::Machine { hostname: exit_host(p), ip: first_ip(p) }),
        }
    }
}

/// The exit nodes that the peers offer, taken in order.
pub open spec fn exit_scan(peers: Seq<PeerView>) -> Seq<ExitNodeView>
    decreases peers.len(),
{
    if peers.len() == 0 {
        seq![]
    } else {
        exit_step(exit_scan(peers.drop_last()), peers.last())
    }
}

/// The exit nodes on offer: one VPN node per country and city, the current
/// exit node preferred, and every machine that offers itself.
pub open spec fn exit_nodes_of(peers: Seq<PeerView>) -> Seq<ExitNodeView> {
    exit_scan(exit_preference_order(peers))
}

/// The commands of the tailscale CLI.
pub open spec fn tailscale_command(args: Seq<Seq<char>>) -> InvocationView {
    InvocationView { program: TAILSCALE@, args }
}

/// The error output of a failed status query means that the daemon is stopped.
pub open spec fn says_stopped(stderr: Seq<char>) -> bool {
    contains(stderr, NOT_RUNNING_MESSAGE@) || contains(stderr, NO_DAEMON_MESSAGE@)
}

// ---------------------------------------------------------------------------
// Laws of the report's reading
// ---------------------------------------------------------------------------

/// The city of a VPN peer.
pub open spec fn peer_city(p: PeerView) -> (Seq<char>, Seq<char>) {
    (p.location->0.country, p.location->0.city)
}

/// No two VPN entries are at the same country and city.
pub open spec fn unique_cities(nodes: Seq<ExitNodeView>) -> bool {
    forall|i: int, j: int|
        0 <= i < j < nodes.len() && (#[trigger] vpn_city(nodes[i])) is Some ==> vpn_city(nodes[i])
            != #[trigger] vpn_city(nodes[j])
}

/// Online machines come before offline ones.
proof fn lemma_machines_order(peers: Seq<PeerView>)
    ensures
        forall|i: int, j: int|
            0 <= i < j < machines_of(peers).len() && (#[trigger] machines_of(peers)[j]).online
                ==> (#[trigger] machines_of(peers)[i]).online,
    decreases peers.len(),
{
    if peers.len() > 0 {
        let init = peers.drop_last();
        lemma_machines_order(init);
        let rest = machines_of(init);
        let ms = machines_of(peers);
        let p = peers.last();
        assert forall|i: int, j: int|
            0 <= i < j < ms.len() && (#[trigger] ms[j]).online implies (#[trigger] ms[i]).online by {
            if is_vpn_peer(p) {
            } else if p.online {
                if i > 0 {
                    assert(ms[i] == rest[i - 1] && ms[j] == rest[j - 1]);
                }
            } else {
                if j < ms.len() - 1 {
                    assert(ms[i] == rest[i] && ms[j] == rest[j]);
                }
            }
        }
    }
}

/// Each machine listed is a peer that is not a VPN node.
proof fn lemma_machines_sources(peers: Seq<PeerView>)
    ensures
        forall|i: int|
            0 <= i < machines_of(peers).len() ==> exists|k: int|
                0 <= k < peers.len() && !is_vpn_peer(peers[k]) && #[trigger] machines_of(peers)[i]
                    == machine_of(#[trigger] peers[k]),
    decreases peers.len(),
{
    if peers.len() > 0 {
        let init = peers.drop_last();
        lemma_machines_sources(init);
        let rest = machines_of(init);
        let ms = machines_of(peers);
        let p = peers.last();
        let n = peers.len() - 1;
        assert forall|i: int| 0 <= i < ms.len() implies exists|k: int|
            0 <= k < peers.len() && !is_vpn_peer(peers[k]) && #[trigger] ms[i] == machine_of(
                #[trigger] peers[k],
            ) by {
            if is_vpn_peer(p) {
                let k = choose|k: int|
                    0 <= k < init.len() && !is_vpn_peer(init[k]) && rest[i] == machine_of(init[k]);
                assert(peers[k] == init[k]);
            } else if p.online {
                if i == 0 {
                    assert(peers[n] == p);
                } else {
                    assert(ms[i] == rest[i - 1]);
                    let k = choose|k: int|
                        0 <= k < init.len() && !is_vpn_peer(init[k]) && rest[i - 1] == machine_of(
                            init[k],
                        );
                    assert(peers[k] == init[k]);
                }
            } else {
                if i == ms.len() - 1 {
                    assert(peers[n] == p);
                } else {
                    assert(ms[i] == rest[i]);
                    let k = choose|k: int|
                        0 <= k < init.len() && !is_vpn_peer(init[k]) && rest[i] == machine_of(
                            init[k],
                        );
                    assert(peers[k] == init[k]);
                }
            }
        }
    }
}

/// Each peer that is not a VPN node is listed.
proof fn lemma_machines_complete(peers: Seq<PeerView>)
    ensures
        forall|k: int|
            0 <= k < peers.len() && !is_vpn_peer(#[trigger] peers[k]) ==> exists|i: int|
                0 <= i < machines_of(peers).len() && #[trigger] machines_of(peers)[i] == machine_of(
                    peers[k],
                ),
    decreases peers.len(),
{
    if peers.len() > 0 {
        let init = peers.drop_last();
        lemma_machines_complete(init);
        let rest = machines_of(init);
        let ms = machines_of(peers);
        let p = peers.last();
        assert forall|k: int| 0 <= k < peers.len() && !is_vpn_peer(#[trigger] peers[k]) implies exists|i: int|
            0 <= i < ms.len() && #[trigger] ms[i] == machine_of(peers[k]) by {
            if k < peers.len() - 1 {
                assert(peers[k] == init[k]);
                let i = choose|i: int| 0 <= i < rest.len() && #[trigger] rest[i] == machine_of(init[k]);
                if is_vpn_peer(p) {
                    assert(ms[i] == rest[i]);
                } else if p.online {
                    assert(ms[i + 1] == rest[i]);
                } else {
                    assert(ms[i] == rest[i]);
                }
            } else {
                if p.online {
                    assert(ms[0] == machine_of(p));
                } else {
                    assert(ms[ms.len() - 1] == machine_of(p));
                }
            }
        }
    }
}

/// The machines of the network list online machines before offline ones;
/// each of them is a peer that is not a VPN node, and each such peer is
/// listed.
pub proof fn lemma_machines_online_first(peers: Seq<PeerView>)
    ensures
        forall|i: int, j: int|
            0 <= i < j < machines_of(peers).len() && (#[trigger] machines_of(peers)[j]).online
                ==> (#[trigger] machines_of(peers)[i]).online,
        forall|i: int|
            0 <= i < machines_of(peers).len() ==> exists|k: int|
                0 <= k < peers.len() && !is_vpn_peer(peers[k]) && #[trigger] machines_of(peers)[i]
                    == machine_of(#[trigger] peers[k]),
        forall|k: int|
            0 <= k < peers.len() && !is_vpn_peer(#[trigger] peers[k]) ==> exists|i: int|
                0 <= i < machines_of(peers).len() && #[trigger] machines_of(peers)[i] == machine_of(
                    peers[k],
                ),
{
    lemma_machines_order(peers);
    lemma_machines_sources(peers);
    lemma_machines_complete(peers);
}

/// Scanning more peers only adds exit nodes at the end.
proof fn lemma_scan_extends(a: Seq<PeerView>, b: Seq<PeerView>)
    ensures
        exit_scan(a).len() <= exit_scan(a + b).len(),
        forall|i: int| 0 <= i < exit_scan(a).len() ==> #[trigger] exit_scan(a + b)[i] == exit_scan(a)[i],
    decreases b.len(),
{
    if b.len() == 0 {
        assert(a + b =~= a);
    } else {
        lemma_scan_extends(a, b.drop_last());
        assert((a + b).drop_last() =~= a + b.drop_last());
        assert((a + b).last() == b.last());
    }
}

/// Scanning never gives two VPN entries at the same city.
proof fn lemma_scan_unique(ps: Seq<PeerView>)
    ensures
        unique_cities(exit_scan(ps)),
    decreases ps.len(),
{
    if ps.len() > 0 {
        lemma_scan_unique(ps.drop_last());
        let prev = exit_scan(ps.drop_last());
        let cur = exit_scan(ps);
        assert forall|i: int, j: int|
            0 <= i < j < cur.len() && (#[trigger] vpn_city(cur[i])) is Some implies vpn_city(cur[i])
            != #[trigger] vpn_city(cur[j]) by {
            if j < prev.len() {
                assert(cur[i] == prev[i] && cur[j] == prev[j]);
            } else {
                assert(cur[i] == prev[i]);
                if vpn_city(cur[i]) == vpn_city(cur[j]) {
                    let (c, t) = vpn_city(cur[j])->0;
                    assert(has_city(prev, c, t));
                }
            }
        }
    }
}

/// After the scan, the city of every VPN peer scanned has an entry.
proof fn lemma_scan_covers(ps: Seq<PeerView>)
    ensures
        forall|k: int|
            0 <= k < ps.len() && is_vpn_peer(#[trigger] ps[k]) ==> has_city(
                exit_scan(ps),
                peer_city(ps[k]).0,
                peer_city(ps[k]).1,
            ),
    decreases ps.len(),
{
    if ps.len() > 0 {
        let init = ps.drop_last();
        lemma_scan_covers(init);
        let prev = exit_scan(init);
        let cur = exit_scan(ps);
        assert forall|k: int| 0 <= k < ps.len() && is_vpn_peer(#[trigger] ps[k]) implies has_city(
            cur,
            peer_city(ps[k]).0,
            peer_city(ps[k]).1,
        ) by {
            let (c, t) = peer_city(ps[k]);
            if k < ps.len() - 1 {
                assert(ps[k] == init[k]);
                assert(has_city(prev, c, t));
                let i = choose|i: int| 0 <= i < prev.len() && #[trigger] vpn_city(prev[i]) == Some((c, t));
                assert(cur[i] == prev[i]);
            } else {
                if !has_city(prev, c, t) {
                    assert(vpn_city(cur[prev.len() as int]) == Some((c, t)));
                } else {
                    let i = choose|i: int| 0 <= i < prev.len() && #[trigger] vpn_city(prev[i]) == Some((c, t));
                    assert(cur[i] == prev[i]);
                }
            }
        }
    }
}

/// Scanning only current exit nodes gives only current exit nodes.
proof fn lemma_scan_active(ps: Seq<PeerView>)
    requires
        forall|k: int| 0 <= k < ps.len() ==> (#[trigger] ps[k]).exit_node,
    ensures
        forall|i: int|
            0 <= i < exit_scan(ps).len() && (#[trigger] vpn_city(exit_scan(ps)[i])) is Some
                ==> vpn_active(exit_scan(ps)[i]),
    decreases ps.len(),
{
    if ps.len() > 0 {
        let init = ps.drop_last();
        assert forall|k: int| 0 <= k < init.len() implies (#[trigger] init[k]).exit_node by {
            assert(init[k] == ps[k]);
        }
        lemma_scan_active(init);
        assert(ps.last().exit_node);
        let prev = exit_scan(init);
        let cur = exit_scan(ps);
        assert forall|i: int|
            0 <= i < cur.len() && (#[trigger] vpn_city(cur[i])) is Some implies vpn_active(cur[i]) by {
            if i < prev.len() {
                assert(cur[i] == prev[i]);
            }
        }
    }
}

/// Every peer kept by the filter has the flag, and every peer with the flag is kept.
proof fn lemma_with_exit_flag(ps: Seq<PeerView>, flag: bool)
    ensures
        forall|i: int|
            0 <= i < with_exit_flag(ps, flag).len() ==> (#[trigger] with_exit_flag(ps, flag)[i]).exit_node
                == flag,
        forall|k: int|
            0 <= k < ps.len() && (#[trigger] ps[k]).exit_node == flag ==> exists|i: int|
                0 <= i < with_exit_flag(ps, flag).len() && #[trigger] with_exit_flag(ps, flag)[i]
                    == ps[k],
    decreases ps.len(),
{
    if ps.len() > 0 {
        let init = ps.drop_last();
        lemma_with_exit_flag(init, flag);
        let w0 = with_exit_flag(init, flag);
        let w = with_exit_flag(ps, flag);
        assert forall|k: int| 0 <= k < ps.len() && (#[trigger] ps[k]).exit_node == flag implies exists|i: int|
            0 <= i < w.len() && #[trigger] w[i] == ps[k] by {
            if k < ps.len() - 1 {
                assert(init[k] == ps[k]);
                let i = choose|i: int| 0 <= i < w0.len() && #[trigger] w0[i] == init[k];
                assert(w[i] == w0[i]);
            } else {
                assert(w[w.len() - 1] == ps[k]);
            }
        }
        assert forall|i: int| 0 <= i < w.len() implies (#[trigger] w[i]).exit_node == flag by {
            if i < w0.len() {
                assert(w[i] == w0[i]);
            }
        }
    }
}

/// The exit nodes on offer hold one VPN entry per country and city: no two
/// entries share a city, the city of every VPN peer has its entry, and
/// where the current exit node is a VPN peer, the entry of its city is
/// marked as the current exit node.
pub proof fn lemma_exit_nodes_one_per_city(peers: Seq<PeerView>)
    ensures
        unique_cities(exit_nodes_of(peers)),
        forall|k: int|
            0 <= k < peers.len() && is_vpn_peer(#[trigger] peers[k]) ==> has_city(
                exit_nodes_of(peers),
                peer_city(peers[k]).0,
                peer_city(peers[k]).1,
            ),
        forall|k: int, i: int|
            0 <= k < peers.len() && is_vpn_peer(#[trigger] peers[k]) && peers[k].exit_node && 0 <= i
                < exit_nodes_of(peers).len() && #[trigger] vpn_city(exit_nodes_of(peers)[i]) == Some(
                peer_city(peers[k]),
            ) ==> vpn_active(exit_nodes_of(peers)[i]),
{
    let t = with_exit_flag(peers, true);
    let f = with_exit_flag(peers, false);
    let order = t + f;
    let nodes = exit_nodes_of(peers);
    lemma_scan_unique(order);
    lemma_scan_covers(order);
    lemma_scan_covers(t);
    lemma_with_exit_flag(peers, true);
    lemma_with_exit_flag(peers, false);
    lemma_scan_active(t);
    lemma_scan_extends(t, f);
    assert forall|k: int| 0 <= k < peers.len() && is_vpn_peer(#[trigger] peers[k]) implies has_city(
        nodes,
        peer_city(peers[k]).0,
        peer_city(peers[k]).1,
    ) by {
        if peers[k].exit_node {
            let i = choose|i: int| 0 <= i < t.len() && #[trigger] t[i] == peers[k];
            assert(order[i] == t[i]);
        } else {
            let i = choose|i: int| 0 <= i < f.len() && #[trigger] f[i] == peers[k];
            assert(order[t.len() + i] == f[i]);
        }
    }
    assert forall|k: int, i: int|
        0 <= k < peers.len() && is_vpn_peer(#[trigger] peers[k]) && peers[k].exit_node && 0 <= i
            < nodes.len() && #[trigger] vpn_city(nodes[i]) == Some(peer_city(peers[k])) implies vpn_active(
        nodes[i],
    ) by {
        let j = choose|j: int| 0 <= j < t.len() && #[trigger] t[j] == peers[k];
        let (c, ct) = peer_city(peers[k]);
        assert(has_city(exit_scan(t), c, ct));
        let i0 = choose|i0: int|
            0 <= i0 < exit_scan(t).len() && #[trigger] vpn_city(exit_scan(t)[i0]) == Some((c, ct));
        assert(nodes[i0] == exit_scan(t)[i0]);
        if i0 < i {
            assert(vpn_city(nodes[i0]) != vpn_city(nodes[i]));
        } else if i < i0 {
            assert(vpn_city(nodes[i]) != vpn_city(nodes[i0]));
        }
    }
}

/// Each listed machine carries the name, address, online flag and
/// current-exit-node flag (`ExitNode`, not `ExitNodeOption`) of a peer that
/// is not a VPN node, and each such peer is listed with its own.
pub proof fn lemma_machines_carry_peer_fields(peers: Seq<PeerView>)
    ensures
        forall|i: int|
            0 <= i < machines_of(peers).len() ==> exists|k: int|
                0 <= k < peers.len() && !((#[trigger] peers[k]).exit_node_option
                    && peers[k].location is Some) && #[trigger] machines_of(peers)[i] == (MachineView {
                    ip: if peers[k].ips.len() > 0 {
                        peers[k].ips[0]
                    } else {
                        seq![]
                    },
                    hostname: peers[k].host_name,
                    online: peers[k].online,
                    is_exit_node: peers[k].exit_node,
                }),
        forall|k: int|
            0 <= k < peers.len() && !((#[trigger] peers[k]).exit_node_option
                && peers[k].location is Some) ==> exists|i: int|
                0 <= i < machines_of(peers).len() && #[trigger] machines_of(peers)[i] == (MachineView {
                    ip: if peers[k].ips.len() > 0 {
                        peers[k].ips[0]
                    } else {
                        seq![]
                    },
                    hostname: peers[k].host_name,
                    online: peers[k].online,
                    is_exit_node: peers[k].exit_node,
                }),
{
    lemma_machines_sources(peers);
    lemma_machines_complete(peers);
    let ms = machines_of(peers);
    assert forall|i: int| 0 <= i < ms.len() implies exists|k: int|
        0 <= k < peers.len() && !((#[trigger] peers[k]).exit_node_option
            && peers[k].location is Some) && #[trigger] ms[i] == (MachineView {
            ip: if peers[k].ips.len() > 0 {
                peers[k].ips[0]
            } else {
                seq![]
            },
            hostname: peers[k].host_name,
            online: peers[k].online,
            is_exit_node: peers[k].exit_node,
        }) by {
        let k = choose|k: int|
            0 <= k < peers.len() && !is_vpn_peer(peers[k]) && #[trigger] ms[i] == machine_of(
                #[trigger] peers[k],
            );
        assert(ms[i] == machine_of(peers[k]));
    }
}

/// After the scan, every peer scanned that offers itself as exit node and
/// has no location has its machine entry.
proof fn lemma_scan_covers_machines(ps: Seq<PeerView>)
    ensures
        forall|k: int|
            0 <= k < ps.len() && (#[trigger] ps[k]).exit_node_option && ps[k].location is None
                ==> exists|i: int|
                0 <= i < exit_scan(ps).len() && #[trigger] exit_scan(ps)[i]
                    == (ExitNodeView::Machine { hostname: exit_host(ps[k]), ip: first_ip(ps[k]) }),
    decreases ps.len(),
{
    if ps.len() > 0 {
        let init = ps.drop_last();
        lemma_scan_covers_machines(init);
        let prev = exit_scan(init);
        let cur = exit_scan(ps);
        assert forall|k: int|
            0 <= k < ps.len() && (#[trigger] ps[k]).exit_node_option && ps[k].location is None implies exists|i: int|
            0 <= i < cur.len() && #[trigger] cur[i] == (ExitNodeView::Machine {
                hostname: exit_host(ps[k]),
                ip: first_ip(ps[k]),
            }) by {
            if k < ps.len() - 1 {
                assert(ps[k] == init[k]);
                let i = choose|i: int|
                    0 <= i < prev.len() && #[trigger] prev[i] == ExitNodeView::Machine {
                        hostname: exit_host(init[k]),
                        ip: first_ip(init[k]),
                    };
                assert(cur[i] == prev[i]);
            } else {
                assert(cur[prev.len() as int] == ExitNodeView::Machine {
                    hostname: exit_host(ps[k]),
                    ip: first_ip(ps[k]),
                });
            }
        }
    }
}

/// Every peer that offers itself as exit node and has no location is an
/// exit node on offer, under its DNS name without trailing dots and its
/// first address, whether or not it is the current exit node.
pub proof fn lemma_exit_nodes_list_machines(peers: Seq<PeerView>)
    ensures
        forall|k: int|
            0 <= k < peers.len() && (#[trigger] peers[k]).exit_node_option && peers[k].location is None
                ==> exists|i: int|
                0 <= i < exit_nodes_of(peers).len() && #[trigger] exit_nodes_of(peers)[i]
                    == (ExitNodeView::Machine {
                    hostname: trim_end_char(peers[k].dns_name, '.'),
                    ip: if peers[k].ips.len() > 0 {
                        peers[k].ips[0]
                    } else {
                        seq![]
                    },
                }),
{
    let t = with_exit_flag(peers, true);
    let f = with_exit_flag(peers, false);
    let order = t + f;
    let nodes = exit_nodes_of(peers);
    lemma_scan_covers_machines(order);
    lemma_with_exit_flag(peers, true);
    lemma_with_exit_flag(peers, false);
    assert forall|k: int|
        0 <= k < peers.len() && (#[trigger] peers[k]).exit_node_option && peers[k].location is None implies exists|i: int|
        0 <= i < nodes.len() && #[trigger] nodes[i] == (ExitNodeView::Machine {
            hostname: trim_end_char(peers[k].dns_name, '.'),
            ip: if peers[k].ips.len() > 0 {
                peers[k].ips[0]
            } else {
                seq![]
            },
        }) by {
        let j = if peers[k].exit_node {
            let i = choose|i: int| 0 <= i < t.len() && #[trigger] t[i] == peers[k];
            assert(order[i] == t[i]);
            i
        } else {
            let i = choose|i: int| 0 <= i < f.len() && #[trigger] f[i] == peers[k];
            assert(order[t.len() + i] == f[i]);
            t.len() + i
        };
        assert(order[j] == peers[k]);
        let i = choose|i: int|
            0 <= i < nodes.len() && #[trigger] nodes[i] == ExitNodeView::Machine {
                hostname: exit_host(order[j]),
                ip: first_ip(order[j]),
            };
        assert(nodes[i] == ExitNodeView::Machine {
            hostname: trim_end_char(peers[k].dns_name, '.'),
            ip: if peers[k].ips.len() > 0 {
                peers[k].ips[0]
            } else {
                seq![]
            },
        });
    }
}

/// An exit node entry that the peer `p` gives: a VPN entry for a peer with
/// a location, a machine entry for one without, each under the DNS name
/// without trailing dots.
pub open spec fn entry_from_peer(e: ExitNodeView, p: PeerView) -> bool {
    &&& p.exit_node_option
    &&& match e {
        ExitNodeView::VPN { hostname, country, city, is_exit_node } => p.location == Some(
            LocationView { country, city },
        ) && hostname == trim_end_char(p.dns_name, '.') && is_exit_node == p.exit_node,
        ExitNodeView::Machine { hostname, ip } => p.location is None && hostname == trim_end_char(
            p.dns_name,
            '.',
        ) && ip == (if p.ips.len() > 0 {
            p.ips[0]
        } else {
            seq![]
        }),
    }
}

/// Every entry of a scan comes from a peer scanned.
proof fn lemma_scan_sources(ps: Seq<PeerView>)
    ensures
        forall|i: int|
            0 <= i < exit_scan(ps).len() ==> exists|k: int|
                0 <= k < ps.len() && entry_from_peer(#[trigger] exit_scan(ps)[i], #[trigger] ps[k]),
    decreases ps.len(),
{
    if ps.len() > 0 {
        let init = ps.drop_last();
        lemma_scan_sources(init);
        let prev = exit_scan(init);
        let cur = exit_scan(ps);
        let n = ps.len() - 1;
        assert(ps.last() == ps[n]);
        assert forall|i: int| 0 <= i < cur.len() implies exists|k: int|
            0 <= k < ps.len() && entry_from_peer(#[trigger] cur[i], #[trigger] ps[k]) by {
            if i < prev.len() {
                assert(cur[i] == prev[i]);
                let k = choose|k: int| 0 <= k < init.len() && entry_from_peer(prev[i], init[k]);
                assert(init[k] == ps[k]);
            } else {
                assert(entry_from_peer(cur[i], ps[n]));
            }
        }
    }
}

/// Every peer kept by the exit-flag filter is one of the peers.
proof fn lemma_with_exit_flag_sources(ps: Seq<PeerView>, flag: bool)
    ensures
        forall|i: int|
            0 <= i < with_exit_flag(ps, flag).len() ==> exists|k: int|
                0 <= k < ps.len() && #[trigger] with_exit_flag(ps, flag)[i] == ps[k],
    decreases ps.len(),
{
    if ps.len() > 0 {
        let init = ps.drop_last();
        lemma_with_exit_flag_sources(init, flag);
        let w0 = with_exit_flag(init, flag);
        let w = with_exit_flag(ps, flag);
        assert forall|i: int| 0 <= i < w.len() implies exists|k: int|
            0 <= k < ps.len() && #[trigger] w[i] == ps[k] by {
            if i < w0.len() {
                assert(w[i] == w0[i]);
                let k = choose|k: int| 0 <= k < init.len() && w0[i] == init[k];
                assert(init[k] == ps[k]);
            } else {
                assert(w[i] == ps[ps.len() - 1]);
            }
        }
    }
}

/// Every exit node on offer comes from a peer that offers itself as exit
/// node: a VPN entry carries the peer's location, its DNS name without
/// trailing dots and its current-exit-node flag; a machine entry carries
/// the DNS name without trailing dots and the first address of a peer
/// without location.
pub proof fn lemma_exit_nodes_from_peers(peers: Seq<PeerView>)
    ensures
        forall|i: int|
            0 <= i < exit_nodes_of(peers).len() ==> exists|k: int|
                0 <= k < peers.len() && entry_from_peer(
                    #[trigger] exit_nodes_of(peers)[i],
                    #[trigger] peers[k],
                ),
{
    let t = with_exit_flag(peers, true);
    let f = with_exit_flag(peers, false);
    let order = t + f;
    let nodes = exit_nodes_of(peers);
    lemma_scan_sources(order);
    lemma_with_exit_flag_sources(peers, true);
    lemma_with_exit_flag_sources(peers, false);
    assert forall|i: int| 0 <= i < nodes.len() implies exists|k: int|
        0 <= k < peers.len() && entry_from_peer(#[trigger] nodes[i], #[trigger] peers[k]) by {
        let j = choose|j: int| 0 <= j < order.len() && entry_from_peer(nodes[i], order[j]);
        if j < t.len() {
            assert(order[j] == t[j]);
            let k = choose|k: int| 0 <= k < peers.len() && t[j] == peers[k];
            assert(entry_from_peer(nodes[i], peers[k]));
        } else {
            assert(order[j] == f[j - t.len()]);
            let k = choose|k: int| 0 <= k < peers.len() && f[j - t.len()] == peers[k];
            assert(entry_from_peer(nodes[i], peers[k]));
        }
    }
}

// ---------------------------------------------------------------------------
// Executable code
// ---------------------------------------------------------------------------

/// The first address of a peer, or an empty string.
fn first_ip_of(p: &PeerInfo) -> (ip: String)
    ensures
        ip@ == first_ip(p@),
{
    if p.tailscale_i_ps.len() > 0 {
        p.tailscale_i_ps[0].clone()
    } else {
        String::new()
    }
}

fn machine_from(p: &PeerInfo) -> (m: MachineData)
    ensures
        m@ == machine_of(p@),
{
    MachineData {
        ip: first_ip_of(p),
        hostname: p.host_name.clone(),
        online: p.online,
        is_exit_node: p.exit_node,
    }
}

proof fn lemma_peers_take_step(v: Seq<PeerInfo>, i: int)
    requires
        0 <= i < v.len(),
    ensures
        peers_view(v.take(i + 1)).drop_last() == peers_view(v.take(i)),
        peers_view(v.take(i + 1)).last() == v[i]@,
        peers_view(v.take(i + 1)).len() == i + 1,
{
    assert(peers_view(v.take(i + 1)).drop_last() =~= peers_view(v.take(i)));
}

/// Whether `nodes` holds a VPN entry at this country and city.
fn has_city_exec(nodes: &Vec<ExitNode>, country: &String, city: &String) -> (b: bool)
    ensures
        b == has_city(exit_nodes_view(nodes@), country@, city@),
{
    let ghost view = exit_nodes_view(nodes@);
    let mut i: usize = 0;
    while i < nodes.len()
        invariant
            i <= nodes@.len(),
            view == exit_nodes_view(nodes@),
            forall|j: int| 0 <= j < i ==> #[trigger] vpn_city(view[j]) != Some((country@, city@)),
        decreases nodes@.len() - i,
    {
        match &nodes[i] {
            ExitNode::VPN(v) => {
                if v.country == *country && v.city == *city {
                    assert(vpn_city(view[i as int]) == Some((country@, city@)));
                    return true;
                }
            },
            ExitNode::Machine(_) => {},
        }
        i = i + 1;
    }
    false
}

/// Adds to `nodes` what the peer `p` offers.
fn scan_peer(nodes: &mut Vec<ExitNode>, p: &PeerInfo)
    ensures
        exit_nodes_view(final(nodes)@) == exit_step(exit_nodes_view(old(nodes)@), p@),
{
    let ghost before = nodes@;
    if !p.exit_node_option {
        return;
    }
    let host = trim_end_char_str(p.dns_name.as_str(), '.');
    match &p.location {
        Some(loc) => {
            if has_city_exec(nodes, &loc.country, &loc.city) {
                return;
            }
            nodes.push(
                ExitNode::VPN(
                    VPNNodeData {
                        hostname: host,
                        country: loc.country.clone(),
                        city: loc.city.clone(),
                        is_exit_node: p.exit_node,
                    },
                ),
            );
        },
        None => {
            nodes.push(ExitNode::Machine(ExitNodeData { hostname: host, ip: first_ip_of(p) }));
        },
    }
    assert(exit_nodes_view(nodes@) =~= exit_nodes_view(before).push(nodes@.last()@));
}

impl Tailscale {
    fn command(args: Vec<String>) -> (inv: Invocation)
        ensures
            inv@ == tailscale_command(strings_view(args@)),
    {
        Invocation { program: String::from_str(TAILSCALE), args }
    }

    /// Enables Tailscale: `tailscale up`.
    pub fn up() -> (inv: Invocation)
        ensures
            inv@ == tailscale_command(seq!["up"@]),
    {
        let mut args: Vec<String> = Vec::new();
        push_text(&mut args, "up");
        assert(strings_view(args@) =~= seq!["up"@]);
        Self::command(args)
    }

    /// Disables Tailscale: `tailscale down`.
    pub fn down() -> (inv: Invocation)
        ensures
            inv@ == tailscale_command(seq!["down"@]),
    {
        let mut args: Vec<String> = Vec::new();
        push_text(&mut args, "down");
        assert(strings_view(args@) =~= seq!["down"@]);
        Self::command(args)
    }

    /// Chooses the exit node: `tailscale set --exit-node=<hostname>`.
    pub fn set_exit_node(hostname: &str) -> (inv: Invocation)
        ensures
            inv@ == tailscale_command(seq!["set"@, "--exit-node="@ + hostname@]),
    {
        let mut args: Vec<String> = Vec::new();
        push_text(&mut args, "set");
        let arg = concat_str("--exit-node=", hostname);
        push_text(&mut args, arg.as_str());
        assert(strings_view(args@) =~= seq!["set"@, "--exit-node="@ + hostname@]);
        Self::command(args)
    }

    /// Stops using an exit node: an exit node with the empty name.
    pub fn deselect_exit_node() -> (inv: Invocation)
        ensures
            inv@ == tailscale_command(seq!["set"@, "--exit-node="@ + ""@]),
    {
        Self::set_exit_node("")
    }

    /// The status query: `tailscale status --json`.
    pub fn status_command() -> (inv: Invocation)
        ensures
            inv@ == tailscale_command(seq!["status"@, "--json"@]),
    {
        let mut args: Vec<String> = Vec::new();
        push_text(&mut args, "status");
        push_text(&mut args, "--json");
        assert(strings_view(args@) =~= seq!["status"@, "--json"@]);
        Self::command(args)
    }

    /// What running `up`, `down` or `set` gave: success, the failure with
    /// its error output, or the error that kept the command from starting.
    pub fn command_outcome(run: Result<CommandOutput, std::io::Error>) -> (r: Result<
        (),
        TailscaleError,
    >)
        ensures
            match run {
                Err(e) => r == Err::<(), TailscaleError>(TailscaleError::CommandError(e)),
                Ok(o) => if o.success {
                    r == Ok::<(), TailscaleError>(())
                } else {
                    r matches Err(TailscaleError::CommandFailed(s)) && s@ == utf8_lossy(
                        o.stderr@,
                    )
                },
            },
    {
        match run {
            Ok(o) => {
                if o.success {
                    Ok(())
                } else {
                    Err(TailscaleError::CommandFailed(decode_lossy(o.stderr.as_slice())))
                }
            },
            Err(e) => Err(TailscaleError::CommandError(e)),
        }
    }

    /// The JSON report that the status query printed, or why there is
    /// none: the command did not start, the daemon is stopped, or the
    /// command failed otherwise.
    pub fn status_json_output(run: Result<CommandOutput, std::io::Error>) -> (r: Result<
        Vec<u8>,
        TailscaleError,
    >)
        ensures
            match run {
                Err(e) => r matches Err(err) && err == TailscaleError::CommandError(e),
                Ok(o) => if o.success {
                    r matches Ok(json) && json@ == o.stdout@
                } else if says_stopped(utf8_lossy(o.stderr@)) {
                    r matches Err(TailscaleError::DaemonStopped)
                } else {
                    r matches Err(TailscaleError::CommandFailed(s)) && s@ == utf8_lossy(
                        o.stderr@,
                    )
                },
            },
    {
        match run {
            Ok(o) => {
                if o.success {
                    Ok(o.stdout)
                } else {
                    let stderr = decode_lossy(o.stderr.as_slice());
                    if contains_str(stderr.as_str(), NOT_RUNNING_MESSAGE) || contains_str(
                        stderr.as_str(),
                        NO_DAEMON_MESSAGE,
                    ) {
                        Err(TailscaleError::DaemonStopped)
                    } else {
                        Err(TailscaleError::CommandFailed(stderr))
                    }
                }
            },
            Err(e) => Err(TailscaleError::CommandError(e)),
        }
    }

    /// Whether Tailscale is running: the report says so, a stopped daemon
    /// counts as not running, and any other error is passed on.
    pub fn is_enabled(status: Result<TailscaleStatus, TailscaleError>) -> (r: Result<
        bool,
        TailscaleError,
    >)
        ensures
            match status {
                Ok(s) => r == Ok::<bool, TailscaleError>(s.backend_state@ == RUNNING@),
                Err(TailscaleError::DaemonStopped) => r == Ok::<bool, TailscaleError>(false),
                Err(e) => r matches Err(e2) && e2 == e,
            },
    {
        match status {
            Ok(s) => Ok(eq_str(s.backend_state.as_str(), RUNNING)),
            Err(TailscaleError::DaemonStopped) => Ok(false),
            Err(e) => Err(e),
        }
    }

    /// Toggles Tailscale: down when it is known to run, up otherwise
    /// (also when its state could not be read).
    pub fn toggle(enabled: Result<bool, TailscaleError>) -> (inv: Invocation)
        ensures
            enabled == Ok::<bool, TailscaleError>(true) ==> inv@ == tailscale_command(
                seq!["down"@],
            ),
            enabled != Ok::<bool, TailscaleError>(true) ==> inv@ == tailscale_command(
                seq!["up"@],
            ),
    {
        let on = match enabled {
            Ok(b) => b,
            Err(_) => false,
        };
        if on {
            Self::down()
        } else {
            Self::up()
        }
    }

    /// This device's own node, as a machine of the network.
    pub fn self_node(status: Result<TailscaleStatus, TailscaleError>) -> (r: Result<
        Option<MachineData>,
        TailscaleError,
    >)
        ensures
            match status {
                Ok(s) => match s.self_node {
                    Some(p) => r matches Ok(Some(m)) && m@ == machine_of(p@),
                    None => r matches Ok(None),
                },
                Err(e) => r matches Err(e2) && e2 == e,
            },
    {
        match status {
            Ok(s) => match &s.self_node {
                Some(p) => Ok(Some(machine_from(p))),
                None => Ok(None),
            },
            Err(e) => Err(e),
        }
    }

    /// The machines of the network: the peers that are not VPN nodes,
    /// online ones first. A daemon whose backend is not running gives
    /// `DaemonStopped`.
    pub fn status(status: Result<TailscaleStatus, TailscaleError>) -> (r: Result<
        Vec<MachineData>,
        TailscaleError,
    >)
        ensures
            match status {
                Ok(s) => if s.backend_state@ == RUNNING@ {
                    r matches Ok(ms) && machines_view(ms@) == machines_of(peers_view(s.peer@))
                } else {
                    r matches Err(TailscaleError::DaemonStopped)
                },
                Err(e) => r matches Err(e2) && e2 == e,
            },
    {
        let s = match status {
            Ok(s) => s,
            Err(e) => {
                return Err(e);
            },
        };
        if !eq_str(s.backend_state.as_str(), RUNNING) {
            return Err(TailscaleError::DaemonStopped);
        }
        let ghost peers = s.peer@;
        let mut machines: Vec<MachineData> = Vec::new();
        let mut i: usize = 0;
        assert(peers_view(peers.take(0)) =~= seq![]);
        while i < s.peer.len()
            invariant
                i <= peers.len(),
                peers == s.peer@,
                machines_view(machines@) == machines_of(peers_view(peers.take(i as int))),
            decreases peers.len() - i,
        {
            let p = &s.peer[i];
            proof {
                lemma_peers_take_step(peers, i as int);
            }
            let ghost before = machines@;
            if p.exit_node_option && p.location.is_some() {
            } else {
                let m = machine_from(p);
                if m.online {
                    machines.insert(0, m);
                    assert(machines_view(machines@) =~= seq![m@] + machines_view(before));
                } else {
                    machines.push(m);
                    assert(machines_view(machines@) =~= machines_view(before).push(m@));
                }
            }
            i = i + 1;
        }
        assert(peers.take(i as int) =~= peers);
        Ok(machines)
    }

    /// The exit nodes on offer. Peers are taken with the current exit node
    /// first; VPN nodes are deduplicated by country and city, keeping the
    /// first one of each.
    pub fn get_exit_nodes(status: Result<TailscaleStatus, TailscaleError>) -> (r: Result<
        Vec<ExitNode>,
        TailscaleError,
    >)
        ensures
            match status {
                Ok(s) => r matches Ok(nodes) && exit_nodes_view(nodes@) == exit_nodes_of(
                    peers_view(s.peer@),
                ),
                Err(e) => r matches Err(e2) && e2 == e,
            },
    {
        let s = match status {
            Ok(s) => s,
            Err(e) => {
                return Err(e);
            },
        };
        let ghost peers = s.peer@;
        let mut nodes: Vec<ExitNode> = Vec::new();
        let mut i: usize = 0;
        assert(peers_view(peers.take(0)) =~= seq![]);
        while i < s.peer.len()
            invariant
                i <= peers.len(),
                peers == s.peer@,
                exit_nodes_view(nodes@) == exit_scan(
                    with_exit_flag(peers_view(peers.take(i as int)), true),
                ),
            decreases peers.len() - i,
        {
            proof {
                lemma_peers_take_step(peers, i as int);
            }
            let p = &s.peer[i];
            if p.exit_node {
                scan_peer(&mut nodes, p);
                proof {
                    let w = with_exit_flag(peers_view(peers.take(i + 1)), true);
                    assert(w.drop_last() == with_exit_flag(peers_view(peers.take(i as int)), true));
                }
            }
            i = i + 1;
        }
        assert(peers.take(i as int) =~= peers);
        let ghost first = with_exit_flag(peers_view(peers), true);
        let mut i: usize = 0;
        assert(first + with_exit_flag(peers_view(peers.take(0)), false) =~= first);
        while i < s.peer.len()
            invariant
                i <= peers.len(),
                peers == s.peer@,
                first == with_exit_flag(peers_view(peers), true),
                exit_nodes_view(nodes@) == exit_scan(
                    first + with_exit_flag(peers_view(peers.take(i as int)), false),
                ),
            decreases peers.len() - i,
        {
            proof {
                lemma_peers_take_step(peers, i as int);
            }
            let p = &s.peer[i];
            if !p.exit_node {
                scan_peer(&mut nodes, p);
                proof {
                    let w = with_exit_flag(peers_view(peers.take(i + 1)), false);
                    let w0 = with_exit_flag(peers_view(peers.take(i as int)), false);
                    assert(w == w0.push(p@));
                    assert((first + w).drop_last() =~= first + w0);
                    assert((first + w).last() == p@);
                }
            } else {
                proof {
                    let w = with_exit_flag(peers_view(peers.take(i + 1)), false);
                    let w0 = with_exit_flag(peers_view(peers.take(i as int)), false);
                    assert(w == w0);
                }
            }
            i = i + 1;
        }
        assert(peers.take(i as int) =~= peers);
        Ok(nodes)
    }
}

} // verus!
