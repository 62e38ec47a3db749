//! The messages of the mesh and the bounds they are held to.

use crate::shown::shown;
use vstd::prelude::*;
use vstd::string::*;

verus! {

/// The largest accepted frame payload, 1 MiB. It protects a listener from
/// unbounded allocations on a hostile length prefix.
pub const MAX_FRAME_LEN: u32 = 1_048_576;

/// How much of a frame may be filled with the contents of a graph snapshot.
/// The rest is headroom for the envelope: the message's tag and two list
/// lengths.
pub const SNAPSHOT_BUDGET: u32 = 1_047_552;

/// The most hops in one `TunnelOpen`.
pub const MAX_TUNNEL_HOPS: usize = 32;

/// The most advertised listen addresses of one node.
pub const MAX_LISTEN_ADDRS: usize = 16;

/// The longest advertised address, in bytes.
pub const MAX_LISTEN_ADDR_LEN: usize = 256;

/// The longest role, in bytes.
pub const MAX_ROLE_LEN: usize = 64;

/// The longest node id, wherever one appears on the wire, in bytes.
pub const MAX_NODE_ID_LEN: usize = 256;

/// The longest protocol identifier, in bytes.
pub const MAX_PROTOCOL_LEN: usize = 64;

/// The most roles that a node declares for itself.
pub const MAX_NODE_ROLES: usize = 16;

// ---------------------------------------------------------------------------
// Messages
// ---------------------------------------------------------------------------

/// One hop of a route that its initiator pinned.
#[derive(Debug, PartialEq, Eq)]
pub struct RouteHop {
    pub node_id: String,
    pub addr: String,
}

/// One advertised listener and what it speaks. The role is free text: a
/// consumer ignores a role that it does not know.
#[derive(Debug, PartialEq, Eq)]
pub struct ListenAddr {
    pub addr: String,
    pub role: String,
}

/// A node as a graph snapshot lists it.
#[derive(Debug, PartialEq, Eq)]
pub struct NodeInfo {
    pub node_id: String,
    pub listen_addrs: Vec<ListenAddr>,
    pub roles: Vec<String>,
}

/// A report as a graph snapshot lists it.
#[derive(Debug, PartialEq, Eq)]
pub struct GraphReport {
    pub from: String,
    pub target: String,
    pub protocol: String,
    pub reachable: bool,
    pub rtt_ms: Option<u32>,
}

/// The messages that a Head may relay for a client. Flat on purpose: a
/// relayed message cannot hold another one, so no frame can drive the decoder
/// into recursion.
#[derive(Debug, PartialEq, Eq)]
pub enum RelayedMessage {
    NodeHello { node_id: String, roles: Vec<String>, listen_addrs: Vec<ListenAddr> },
    ReachabilityProbe { from: String, to: String, sent_at_unix_ms: u64 },
    ReachabilityReport {
        from: String,
        target: String,
        protocol: String,
        reachable: bool,
        rtt_ms: Option<u32>,
        observed_addr: Option<String>,
    },
}

/// A message of the mesh.
#[derive(Debug, PartialEq, Eq)]
pub enum RadiiMessage {
    NodeHello { node_id: String, roles: Vec<String>, listen_addrs: Vec<ListenAddr> },
    ReachabilityProbe { from: String, to: String, sent_at_unix_ms: u64 },
    ReachabilityReport {
        from: String,
        target: String,
        protocol: String,
        reachable: bool,
        rtt_ms: Option<u32>,
        observed_addr: Option<String>,
    },
    /// `source` is where the relaying Head saw the message come from; it is
    /// free text and authorizes nothing. `client_identity` is the
    /// authenticated id of the client, or `None` on a plaintext bridge.
    FromHead { source: String, client_identity: Option<String>, message: RelayedMessage },
    GraphQuery,
    GraphSnapshot { nodes: Vec<NodeInfo>, reports: Vec<GraphReport> },
    Ack { status: String },
    /// The list starts with the node that receives the frame. A list of one
    /// makes the receiver the end of the chain.
    TunnelOpen { hops: Vec<RouteHop> },
}

// ---------------------------------------------------------------------------
// What the messages say
// ---------------------------------------------------------------------------

pub struct HopAddrView {
    pub node_id: Seq<char>,
    pub addr: Seq<char>,
}

pub struct ListenAddrView {
    pub addr: Seq<char>,
    pub role: Seq<char>,
}

#[verifier::ext_equal]
pub struct NodeInfoView {
    pub node_id: Seq<char>,
    pub listen_addrs: Seq<ListenAddrView>,
    pub roles: Seq<Seq<char>>,
}

pub struct GraphReportView {
    pub from: Seq<char>,
    pub target: Seq<char>,
    pub protocol: Seq<char>,
    pub reachable: bool,
    pub rtt_ms: Option<u32>,
}

pub enum RelayedView {
    NodeHello {
        node_id: Seq<char>,
        roles: Seq<Seq<char>>,
        listen_addrs: Seq<ListenAddrView>,
    },
    ReachabilityProbe { from: Seq<char>, to: Seq<char>, sent_at_unix_ms: u64 },
    ReachabilityReport {
        from: Seq<char>,
        target: Seq<char>,
        protocol: Seq<char>,
        reachable: bool,
        rtt_ms: Option<u32>,
        observed_addr: Option<Seq<char>>,
    },
}

pub enum MessageView {
    NodeHello {
        node_id: Seq<char>,
        roles: Seq<Seq<char>>,
        listen_addrs: Seq<ListenAddrView>,
    },
    ReachabilityProbe { from: Seq<char>, to: Seq<char>, sent_at_unix_ms: u64 },
    ReachabilityReport {
        from: Seq<char>,
        target: Seq<char>,
        protocol: Seq<char>,
        reachable: bool,
        rtt_ms: Option<u32>,
        observed_addr: Option<Seq<char>>,
    },
    FromHead {
        source: Seq<char>,
        client_identity: Option<Seq<char>>,
        message: RelayedView,
    },
    GraphQuery,
    GraphSnapshot { nodes: Seq<NodeInfoView>, reports: Seq<GraphReportView> },
    Ack { status: Seq<char> },
    TunnelOpen { hops: Seq<HopAddrView> },
}

/// The characters of each string.
pub open spec fn texts(list: Seq<String>) -> Seq<Seq<char>> {
    list.map_values(|s: String| s@)
}

/// The characters of an optional string.
pub open spec fn opt_text(s: Option<String>) -> Option<Seq<char>> {
    match s {
        None => None,
        Some(t) => Some(t@),
    }
}

/// The views of a list of listeners.
pub open spec fn listen_views(list: Seq<ListenAddr>) -> Seq<ListenAddrView> {
    list.map_values(|a: ListenAddr| a@)
}

impl View for RouteHop {
    type V = HopAddrView;

    open spec fn view(&self) -> HopAddrView {
        HopAddrView { node_id: self.node_id@, addr: self.addr@ }
    }
}

impl View for ListenAddr {
    type V = ListenAddrView;

    open spec fn view(&self) -> ListenAddrView {
        ListenAddrView { addr: self.addr@, role: self.role@ }
    }
}

impl View for NodeInfo {
    type V = NodeInfoView;

    open spec fn view(&self) -> NodeInfoView {
        NodeInfoView {
            node_id: self.node_id@,
            listen_addrs: listen_views(self.listen_addrs@),
            roles: texts(self.roles@),
        }
    }
}

impl View for GraphReport {
    type V = GraphReportView;

    open spec fn view(&self) -> GraphReportView {
        GraphReportView {
            from: self.from@,
            target: self.target@,
            protocol: self.protocol@,
            reachable: self.reachable,
            rtt_ms: self.rtt_ms,
        }
    }
}

impl View for RelayedMessage {
    type V = RelayedView;

    open spec fn view(&self) -> RelayedView {
        match *self {
            RelayedMessage::NodeHello { node_id, roles, listen_addrs } => RelayedView::NodeHello {
                node_id: node_id@,
                roles: texts(roles@),
                listen_addrs: listen_views(listen_addrs@),
            },
            RelayedMessage::ReachabilityProbe { from, to, sent_at_unix_ms } =>
                RelayedView::ReachabilityProbe { from: from@, to: to@, sent_at_unix_ms },
            RelayedMessage::ReachabilityReport {
                from,
                target,
                protocol,
                reachable,
                rtt_ms,
                observed_addr,
            } => RelayedView::ReachabilityReport {
                from: from@,
                target: target@,
                protocol: protocol@,
                reachable,
                rtt_ms,
                observed_addr: opt_text(observed_addr),
            },
        }
    }
}

impl View for RadiiMessage {
    type V = MessageView;

    open spec fn view(&self) -> MessageView {
        match *self {
            RadiiMessage::NodeHello { node_id, roles, listen_addrs } => MessageView::NodeHello {
                node_id: node_id@,
                roles: texts(roles@),
                listen_addrs: listen_views(listen_addrs@),
            },
            RadiiMessage::ReachabilityProbe { from, to, sent_at_unix_ms } =>
                MessageView::ReachabilityProbe { from: from@, to: to@, sent_at_unix_ms },
            RadiiMessage::ReachabilityReport {
                from,
                target,
                protocol,
                reachable,
                rtt_ms,
                observed_addr,
            } => MessageView::ReachabilityReport {
                from: from@,
                target: target@,
                protocol: protocol@,
                reachable,
                rtt_ms,
                observed_addr: opt_text(observed_addr),
            },
            RadiiMessage::FromHead { source, client_identity, message } => MessageView::FromHead {
                source: source@,
                client_identity: opt_text(client_identity),
                message: message@,
            },
            RadiiMessage::GraphQuery => MessageView::GraphQuery,
            RadiiMessage::GraphSnapshot { nodes, reports } => MessageView::GraphSnapshot {
                nodes: nodes@.map_values(|n: NodeInfo| n@),
                reports: reports@.map_values(|r: GraphReport| r@),
            },
            RadiiMessage::Ack { status } => MessageView::Ack { status: status@ },
            RadiiMessage::TunnelOpen { hops } => MessageView::TunnelOpen {
                hops: hops@.map_values(|h: RouteHop| h@),
            },
        }
    }
}

// ---------------------------------------------------------------------------
// Copies
// ---------------------------------------------------------------------------

/// A copy of a list of strings.
pub fn copy_texts(list: &Vec<String>) -> (r: Vec<String>)
    ensures
        texts(r@) == texts(list@),
{
    let mut r: Vec<String> = Vec::new();
    let mut i: usize = 0;
    while i < list.len()
        invariant
            i <= list@.len(),
            r@.len() == i,
            forall|j: int| 0 <= j < i ==> (#[trigger] r@[j])@ == list@[j]@,
        decreases list@.len() - i,
    {
        r.push(list[i].clone());
        i += 1;
    }
    assert(texts(r@) =~= texts(list@));
    r
}

impl Clone for ListenAddr {
    fn clone(&self) -> (r: Self)
        ensures
            r@ == self@,
    {
        ListenAddr { addr: self.addr.clone(), role: self.role.clone() }
    }
}

impl Clone for RouteHop {
    fn clone(&self) -> (r: Self)
        ensures
            r@ == self@,
    {
        RouteHop { node_id: self.node_id.clone(), addr: self.addr.clone() }
    }
}

/// A copy of a list of listeners.
pub fn copy_listeners(list: &Vec<ListenAddr>) -> (r: Vec<ListenAddr>)
    ensures
        listen_views(r@) == listen_views(list@),
{
    let mut r: Vec<ListenAddr> = Vec::new();
    let mut i: usize = 0;
    while i < list.len()
        invariant
            i <= list@.len(),
            r@.len() == i,
            forall|j: int| 0 <= j < i ==> (#[trigger] r@[j])@ == list@[j]@,
        decreases list@.len() - i,
    {
        r.push(list[i].clone());
        i += 1;
    }
    assert(listen_views(r@) =~= listen_views(list@));
    r
}

// ---------------------------------------------------------------------------
// Relaying
// ---------------------------------------------------------------------------

impl RelayedView {
    /// The same message as a client sends it directly.
    pub open spec fn direct(self) -> MessageView {
        match self {
            RelayedView::NodeHello { node_id, roles, listen_addrs } => MessageView::NodeHello {
                node_id,
                roles,
                listen_addrs,
            },
            RelayedView::ReachabilityProbe { from, to, sent_at_unix_ms } =>
                MessageView::ReachabilityProbe { from, to, sent_at_unix_ms },
            RelayedView::ReachabilityReport {
                from,
                target,
                protocol,
                reachable,
                rtt_ms,
                observed_addr,
            } => MessageView::ReachabilityReport {
                from,
                target,
                protocol,
                reachable,
                rtt_ms,
                observed_addr,
            },
        }
    }

    /// The node id that the message speaks for. A probe writes no state and
    /// claims nothing.
    pub open spec fn claim(self) -> Option<Seq<char>> {
        match self {
            RelayedView::NodeHello { node_id, .. } => Some(node_id),
            RelayedView::ReachabilityReport { from, .. } => Some(from),
            RelayedView::ReachabilityProbe { .. } => None,
        }
    }
}

/// Whether a Head may relay the message.
pub open spec fn relayable(m: MessageView) -> bool {
    m is NodeHello || m is ReachabilityProbe || m is ReachabilityReport
}

/// Why a message is not relayed: it is none that a client may send through a
/// Head.
#[derive(Debug, PartialEq, Eq)]
pub struct NotRelayable {
    /// The message as text.
    pub message: String,
}

impl NotRelayable {
    /// The refusal in words.
    pub open spec fn words(&self) -> Seq<char> {
        "message is not relayable through a Head: "@ + self.message@
    }

    /// The refusal in words.
    pub fn describe(&self) -> (r: String)
        ensures
            r@ == self.words(),
    {
        let mut r: String = "message is not relayable through a Head: ".to_owned();
        r.append(self.message.as_str());
        r
    }
}

impl RelayedMessage {
    /// The node id that the message speaks for.
    pub fn claimed_node_id(&self) -> (r: Option<&str>)
        ensures
            match r {
                None => self@.claim() is None,
                Some(id) => self@.claim() == Some(id@),
            },
    {
        match self {
            RelayedMessage::NodeHello { node_id, .. } => Some(node_id.as_str()),
            RelayedMessage::ReachabilityReport { from, .. } => Some(from.as_str()),
            RelayedMessage::ReachabilityProbe { .. } => None,
        }
    }

    /// The message as a Head relays it; the refusal of a message that may not
    /// be relayed shows the message.
    pub fn try_from(message: RadiiMessage) -> (r: Result<RelayedMessage, NotRelayable>)
        ensures
            match r {
                Ok(relayed) => relayed@.direct() == message@,
                Err(refusal) => !relayable(message@) && refusal.message@
                    == crate::shown::message_text(message@),
            },
    {
        match message {
            RadiiMessage::NodeHello { node_id, roles, listen_addrs } => Ok(
                RelayedMessage::NodeHello { node_id, roles, listen_addrs },
            ),
            RadiiMessage::ReachabilityProbe { from, to, sent_at_unix_ms } => Ok(
                RelayedMessage::ReachabilityProbe { from, to, sent_at_unix_ms },
            ),
            RadiiMessage::ReachabilityReport {
                from,
                target,
                protocol,
                reachable,
                rtt_ms,
                observed_addr,
            } => Ok(
                RelayedMessage::ReachabilityReport {
                    from,
                    target,
                    protocol,
                    reachable,
                    rtt_ms,
                    observed_addr,
                },
            ),
            other => Err(NotRelayable { message: shown(&other) }),
        }
    }
}

/// What may be relayed is exactly what has a direct form: no envelope, no
/// query, no snapshot and no tunnel travels inside an envelope.
pub proof fn law_relayable_is_direct(m: MessageView)
    ensures
        relayable(m) <==> exists|r: RelayedView| #[trigger] r.direct() == m,
{
    if relayable(m) {
        let r = match m {
            MessageView::NodeHello { node_id, roles, listen_addrs } => RelayedView::NodeHello {
                node_id,
                roles,
                listen_addrs,
            },
            MessageView::ReachabilityProbe { from, to, sent_at_unix_ms } =>
                RelayedView::ReachabilityProbe { from, to, sent_at_unix_ms },
            MessageView::ReachabilityReport {
                from,
                target,
                protocol,
                reachable,
                rtt_ms,
                observed_addr,
            } => RelayedView::ReachabilityReport {
                from,
                target,
                protocol,
                reachable,
                rtt_ms,
                observed_addr,
            },
            _ => arbitrary(),
        };
        assert(r.direct() == m);
    }
}

// ---------------------------------------------------------------------------
// What the types hold
// ---------------------------------------------------------------------------

/// What a value stands for is all of its fields, in order.
pub proof fn law_nothing_is_left_out(
    hop: RouteHop,
    listener: ListenAddr,
    node: NodeInfo,
    report: GraphReport,
)
    ensures
        hop@.node_id == hop.node_id@ && hop@.addr == hop.addr@,
        listener@.addr == listener.addr@ && listener@.role == listener.role@,
        node@.node_id == node.node_id@,
        node@.roles.len() == node.roles@.len(),
        forall|i: int|
            0 <= i < node.roles@.len() ==> #[trigger] node@.roles[i] == node.roles@[i]@,
        node@.listen_addrs.len() == node.listen_addrs@.len(),
        forall|i: int|
            0 <= i < node.listen_addrs@.len() ==> (#[trigger] node@.listen_addrs[i]).addr
                == node.listen_addrs@[i].addr@ && node@.listen_addrs[i].role
                == node.listen_addrs@[i].role@,
        report@.from == report.from@ && report@.target == report.target@,
        report@.protocol == report.protocol@,
        report@.reachable == report.reachable && report@.rtt_ms == report.rtt_ms,
{
}

/// A message that is relayed and the one that comes out of it are of one kind
/// and agree in every field, in both directions.
pub proof fn law_relaying_keeps_every_field(m: RelayedMessage, d: RadiiMessage)
    requires
        m@.direct() == d@,
    ensures
        match (m, d) {
            (
                RelayedMessage::NodeHello { node_id, roles, listen_addrs },
                RadiiMessage::NodeHello { node_id: id, roles: names, listen_addrs: addrs },
            ) => {
                &&& node_id@ == id@
                &&& roles@.len() == names@.len()
                &&& forall|i: int| 0 <= i < roles@.len() ==> (#[trigger] roles@[i])@ == names@[i]@
                &&& listen_addrs@.len() == addrs@.len()
                &&& forall|i: int|
                    0 <= i < addrs@.len() ==> (#[trigger] listen_addrs@[i]).addr@
                        == addrs@[i].addr@ && listen_addrs@[i].role@ == addrs@[i].role@
            },
            (
                RelayedMessage::ReachabilityProbe { from, to, sent_at_unix_ms },
                RadiiMessage::ReachabilityProbe { from: f, to: t, sent_at_unix_ms: at },
            ) => from@ == f@ && to@ == t@ && sent_at_unix_ms == at,
            (
                RelayedMessage::ReachabilityReport {
                    from,
                    target,
                    protocol,
                    reachable,
                    rtt_ms,
                    observed_addr,
                },
                RadiiMessage::ReachabilityReport {
                    from: f,
                    target: t,
                    protocol: p,
                    reachable: r,
                    rtt_ms: ms,
                    observed_addr: o,
                },
            ) => {
                &&& from@ == f@ && target@ == t@ && protocol@ == p@
                &&& reachable == r && rtt_ms == ms
                &&& observed_addr is Some == o is Some
                &&& observed_addr is Some ==> observed_addr->0@ == o->0@
            },
            _ => false,
        },
{
    match (m, d) {
        (
            RelayedMessage::NodeHello { roles, listen_addrs, .. },
            RadiiMessage::NodeHello { roles: names, listen_addrs: addrs, .. },
        ) => {
            let a = texts(roles@);
            let b = texts(names@);
            assert(a == b);
            assert(a.len() == b.len());
            assert forall|i: int| 0 <= i < roles@.len() implies (#[trigger] roles@[i])@
                == names@[i]@ by {
                assert(a[i] == b[i]);
            }
            let x = listen_views(listen_addrs@);
            let y = listen_views(addrs@);
            assert(x == y);
            assert(x.len() == y.len());
            assert forall|i: int| 0 <= i < addrs@.len() implies (#[trigger] listen_addrs@[i]).addr@
                == addrs@[i].addr@ && listen_addrs@[i].role@ == addrs@[i].role@ by {
                assert(x[i] == y[i]);
                assert(listen_addrs@[i]@ == addrs@[i]@);
            }
        },
        _ => {},
    }
}

/// A Head relays hellos, probes and reports, and nothing else. A hello claims
/// the node that it names and a report the node that it comes from; a probe
/// claims none.
pub proof fn law_what_is_relayed(m: RadiiMessage, r: RelayedMessage, refusal: NotRelayable)
    ensures
        relayable(m@) <==> m is NodeHello || m is ReachabilityProbe || m is ReachabilityReport,
        r@.claim() == (match r {
            RelayedMessage::NodeHello { node_id, .. } => Some(node_id@),
            RelayedMessage::ReachabilityReport { from, .. } => Some(from@),
            RelayedMessage::ReachabilityProbe { .. } => None,
        }),
        refusal.words() == "message is not relayable through a Head: "@ + refusal.message@,
{
}

} // verus!
