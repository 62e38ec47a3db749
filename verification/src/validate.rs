//! The bounds on every peer-supplied string and list of a decoded message.
//!
//! One set of rules serves the direct and the relayed shapes, so that a bound
//! cannot be reached around by going through a Head.

use crate::codec::DecodeFault;
use crate::proto::{GraphReport, ListenAddr, NodeInfo, RadiiMessage, RelayedMessage, RouteHop, MAX_FRAME_LEN, MAX_LISTEN_ADDRS, MAX_LISTEN_ADDR_LEN, MAX_NODE_ID_LEN, MAX_NODE_ROLES, MAX_PROTOCOL_LEN, MAX_ROLE_LEN, MAX_TUNNEL_HOPS};
use crate::text::{bytes_in, decimal};
use vstd::prelude::*;
use vstd::string::*;

verus! {

/// Why a frame or a message is refused. The number is the offending length or
/// count.
#[derive(Debug, Clone, Copy, PartialEq, Eq)]
pub enum WireError {
    /// The payload does not fit the length prefix.
    FrameTooLarge,
    /// The frame is longer than a frame may be.
    FrameLength(u32),
    /// The payload is no message.
    Malformed(DecodeFault),
    HopCount(usize),
    HopAddress(usize),
    SourceLength(usize),
    NodeIdLength(usize),
    RolesCount(usize),
    RoleLength(usize),
    ListenAddrsCount(usize),
    ListenAddrLength(usize),
    ListenRoleLength(usize),
    ProtocolLength(usize),
    ObservedAddrLength(usize),
}

/// `a`, `n`, `b` and `limit` in one line.
pub open spec fn sentence(a: Seq<char>, n: nat, b: Seq<char>, limit: nat) -> Seq<char> {
    a + crate::text::decimal_of(n) + b + crate::text::decimal_of(limit)
}

fn compose(a: &str, n: usize, b: &str, limit: usize) -> (r: String)
    ensures
        r@ == sentence(a@, n as nat, b@, limit as nat),
{
    let mut r: String = a.to_owned();
    r.append(decimal(n as u128).as_str());
    r.append(b);
    r.append(decimal(limit as u128).as_str());
    r
}

impl WireError {
    /// The refusal in words.
    pub open spec fn words(self) -> Seq<char> {
        match self {
            WireError::FrameTooLarge => "frame too large"@,
            WireError::FrameLength(n) => sentence(
                "frame length "@,
                n as nat,
                " exceeds max "@,
                MAX_FRAME_LEN as nat,
            ),
            WireError::Malformed(fault) => fault.words(),
            WireError::HopCount(n) => sentence(
                "tunnel_open hop count "@,
                n as nat,
                " outside 1..="@,
                MAX_TUNNEL_HOPS as nat,
            ),
            WireError::HopAddress(n) => sentence(
                "tunnel_open hop address length "@,
                n as nat,
                " exceeds "@,
                MAX_LISTEN_ADDR_LEN as nat,
            ),
            WireError::SourceLength(n) => sentence(
                "from_head source length "@,
                n as nat,
                " exceeds "@,
                MAX_LISTEN_ADDR_LEN as nat,
            ),
            WireError::NodeIdLength(n) => sentence(
                "node id length "@,
                n as nat,
                " exceeds "@,
                MAX_NODE_ID_LEN as nat,
            ),
            WireError::RolesCount(n) => sentence(
                "node_hello roles count "@,
                n as nat,
                " exceeds "@,
                MAX_NODE_ROLES as nat,
            ),
            WireError::RoleLength(n) => sentence(
                "node_hello role length "@,
                n as nat,
                " exceeds "@,
                MAX_ROLE_LEN as nat,
            ),
            WireError::ListenAddrsCount(n) => sentence(
                "node_hello listen_addrs count "@,
                n as nat,
                " exceeds "@,
                MAX_LISTEN_ADDRS as nat,
            ),
            WireError::ListenAddrLength(n) => sentence(
                "node_hello listen address length "@,
                n as nat,
                " exceeds "@,
                MAX_LISTEN_ADDR_LEN as nat,
            ),
            WireError::ListenRoleLength(n) => sentence(
                "node_hello listen address role length "@,
                n as nat,
                " exceeds "@,
                MAX_ROLE_LEN as nat,
            ),
            WireError::ProtocolLength(n) => sentence(
                "report protocol length "@,
                n as nat,
                " exceeds "@,
                MAX_PROTOCOL_LEN as nat,
            ),
            WireError::ObservedAddrLength(n) => sentence(
                "report observed address length "@,
                n as nat,
                " exceeds "@,
                MAX_LISTEN_ADDR_LEN as nat,
            ),
        }
    }

    /// The refusal in words.
    pub fn describe(&self) -> (r: String)
        ensures
            r@ == self.words(),
    {
        match *self {
            WireError::FrameTooLarge => "frame too large".to_owned(),
            WireError::FrameLength(n) => compose(
                "frame length ",
                n as usize,
                " exceeds max ",
                MAX_FRAME_LEN as usize,
            ),
            WireError::Malformed(fault) => fault.describe().to_owned(),
            WireError::HopCount(n) => compose(
                "tunnel_open hop count ",
                n,
                " outside 1..=",
                MAX_TUNNEL_HOPS,
            ),
            WireError::HopAddress(n) => compose(
                "tunnel_open hop address length ",
                n,
                " exceeds ",
                MAX_LISTEN_ADDR_LEN,
            ),
            WireError::SourceLength(n) => compose(
                "from_head source length ",
                n,
                " exceeds ",
                MAX_LISTEN_ADDR_LEN,
            ),
            WireError::NodeIdLength(n) => compose(
                "node id length ",
                n,
                " exceeds ",
                MAX_NODE_ID_LEN,
            ),
            WireError::RolesCount(n) => compose(
                "node_hello roles count ",
                n,
                " exceeds ",
                MAX_NODE_ROLES,
            ),
            WireError::RoleLength(n) => compose(
                "node_hello role length ",
                n,
                " exceeds ",
                MAX_ROLE_LEN,
            ),
            WireError::ListenAddrsCount(n) => compose(
                "node_hello listen_addrs count ",
                n,
                " exceeds ",
                MAX_LISTEN_ADDRS,
            ),
            WireError::ListenAddrLength(n) => compose(
                "node_hello listen address length ",
                n,
                " exceeds ",
                MAX_LISTEN_ADDR_LEN,
            ),
            WireError::ListenRoleLength(n) => compose(
                "node_hello listen address role length ",
                n,
                " exceeds ",
                MAX_ROLE_LEN,
            ),
            WireError::ProtocolLength(n) => compose(
                "report protocol length ",
                n,
                " exceeds ",
                MAX_PROTOCOL_LEN,
            ),
            WireError::ObservedAddrLength(n) => compose(
                "report observed address length ",
                n,
                " exceeds ",
                MAX_LISTEN_ADDR_LEN,
            ),
        }
    }
}

// ---------------------------------------------------------------------------
// The rules
// ---------------------------------------------------------------------------

/// The first of two refusals.
pub open spec fn either(a: Option<WireError>, b: Option<WireError>) -> Option<WireError> {
    if a is Some {
        a
    } else {
        b
    }
}

/// The refusal of the first list entry that is refused.
pub open spec fn first_fault<T>(
    list: Seq<T>,
    rule: spec_fn(T) -> Option<WireError>,
) -> Option<WireError>
    decreases list.len(),
{
    if list.len() == 0 {
        None
    } else {
        either(rule(list[0]), first_fault(list.drop_first(), rule))
    }
}

/// The length of a string as the wire counts it.
pub open spec fn wire_len(s: Seq<char>) -> usize {
    crate::text::byte_len(s) as usize
}

pub open spec fn node_id_fault(id: Seq<char>) -> Option<WireError> {
    if crate::text::byte_len(id) > MAX_NODE_ID_LEN {
        Some(WireError::NodeIdLength(wire_len(id)))
    } else {
        None
    }
}

pub open spec fn role_fault(role: Seq<char>) -> Option<WireError> {
    if crate::text::byte_len(role) > MAX_ROLE_LEN {
        Some(WireError::RoleLength(wire_len(role)))
    } else {
        None
    }
}

pub open spec fn listener_fault(a: crate::proto::ListenAddrView) -> Option<WireError> {
    if crate::text::byte_len(a.addr) > MAX_LISTEN_ADDR_LEN {
        Some(WireError::ListenAddrLength(wire_len(a.addr)))
    } else if crate::text::byte_len(a.role) > MAX_ROLE_LEN {
        Some(WireError::ListenRoleLength(wire_len(a.role)))
    } else {
        None
    }
}

pub open spec fn listeners_fault(list: Seq<crate::proto::ListenAddrView>) -> Option<WireError> {
    if list.len() > MAX_LISTEN_ADDRS {
        Some(WireError::ListenAddrsCount(list.len() as usize))
    } else {
        first_fault(list, |a: crate::proto::ListenAddrView| listener_fault(a))
    }
}

pub open spec fn roles_fault(roles: Seq<Seq<char>>) -> Option<WireError> {
    if roles.len() > MAX_NODE_ROLES {
        Some(WireError::RolesCount(roles.len() as usize))
    } else {
        first_fault(roles, |r: Seq<char>| role_fault(r))
    }
}

pub open spec fn hello_fault(
    node_id: Seq<char>,
    roles: Seq<Seq<char>>,
    listen_addrs: Seq<crate::proto::ListenAddrView>,
) -> Option<WireError> {
    either(node_id_fault(node_id), either(roles_fault(roles), listeners_fault(listen_addrs)))
}

pub open spec fn report_fault(
    from: Seq<char>,
    target: Seq<char>,
    protocol: Seq<char>,
    observed_addr: Option<Seq<char>>,
) -> Option<WireError> {
    either(
        node_id_fault(from),
        either(
            node_id_fault(target),
            if crate::text::byte_len(protocol) > MAX_PROTOCOL_LEN {
                Some(WireError::ProtocolLength(wire_len(protocol)))
            } else {
                match observed_addr {
                    Some(addr) => if crate::text::byte_len(addr) > MAX_LISTEN_ADDR_LEN {
                        Some(WireError::ObservedAddrLength(wire_len(addr)))
                    } else {
                        None
                    },
                    None => None,
                }
            },
        ),
    )
}

pub open spec fn node_fault(n: crate::proto::NodeInfoView) -> Option<WireError> {
    hello_fault(n.node_id, n.roles, n.listen_addrs)
}

pub open spec fn graph_report_fault(r: crate::proto::GraphReportView) -> Option<WireError> {
    report_fault(r.from, r.target, r.protocol, None)
}

pub open spec fn hop_fault(h: crate::proto::HopAddrView) -> Option<WireError> {
    either(
        node_id_fault(h.node_id),
        if crate::text::byte_len(h.addr) > MAX_LISTEN_ADDR_LEN {
            Some(WireError::HopAddress(wire_len(h.addr)))
        } else {
            None
        },
    )
}

/// What is wrong with the message, if anything; the first fault counts.
pub open spec fn fault(m: crate::proto::MessageView) -> Option<WireError> {
    match m {
        crate::proto::MessageView::NodeHello { node_id, roles, listen_addrs } => hello_fault(
            node_id,
            roles,
            listen_addrs,
        ),
        crate::proto::MessageView::ReachabilityReport {
            from,
            target,
            protocol,
            observed_addr,
            ..
        } => report_fault(from, target, protocol, observed_addr),
        crate::proto::MessageView::ReachabilityProbe { from, to, .. } => either(
            node_id_fault(from),
            node_id_fault(to),
        ),
        crate::proto::MessageView::FromHead { source, client_identity, message } => either(
            if crate::text::byte_len(source) > MAX_LISTEN_ADDR_LEN {
                Some(WireError::SourceLength(wire_len(source)))
            } else {
                None
            },
            either(
                match client_identity {
                    Some(id) => node_id_fault(id),
                    None => None,
                },
                relayed_fault(message),
            ),
        ),
        crate::proto::MessageView::GraphSnapshot { nodes, reports } => either(
            first_fault(nodes, |n: crate::proto::NodeInfoView| node_fault(n)),
            first_fault(reports, |r: crate::proto::GraphReportView| graph_report_fault(r)),
        ),
        crate::proto::MessageView::TunnelOpen { hops } => first_fault(
            hops,
            |h: crate::proto::HopAddrView| hop_fault(h),
        ),
        crate::proto::MessageView::Ack { .. } => None,
        crate::proto::MessageView::GraphQuery => None,
    }
}

/// What is wrong with a relayed message.
pub open spec fn relayed_fault(m: crate::proto::RelayedView) -> Option<WireError> {
    match m {
        crate::proto::RelayedView::NodeHello { node_id, roles, listen_addrs } => hello_fault(
            node_id,
            roles,
            listen_addrs,
        ),
        crate::proto::RelayedView::ReachabilityReport {
            from,
            target,
            protocol,
            observed_addr,
            ..
        } => report_fault(from, target, protocol, observed_addr),
        crate::proto::RelayedView::ReachabilityProbe { from, to, .. } => either(
            node_id_fault(from),
            node_id_fault(to),
        ),
    }
}

/// A relayed message is held to exactly the bounds of its direct form.
pub proof fn law_relayed_bounds_match_direct(m: crate::proto::RelayedView)
    ensures
        relayed_fault(m) == fault(m.direct()),
{
}

/// A list passes a rule exactly when each of its entries does.
pub proof fn lemma_no_fault<T>(list: Seq<T>, rule: spec_fn(T) -> Option<WireError>)
    ensures
        first_fault(list, rule) is None <==> forall|i: int|
            0 <= i < list.len() ==> rule(#[trigger] list[i]) is None,
    decreases list.len(),
{
    if list.len() > 0 {
        let rest = list.drop_first();
        lemma_no_fault(rest, rule);
        if first_fault(list, rule) is None {
            assert forall|i: int| 0 <= i < list.len() implies rule(#[trigger] list[i]) is None by {
                if i > 0 {
                    assert(rest[i - 1] == list[i]);
                }
            }
        }
        if forall|i: int| 0 <= i < list.len() ==> rule(#[trigger] list[i]) is None {
            assert(rule(list[0]) is None);
            assert forall|i: int| 0 <= i < rest.len() implies rule(#[trigger] rest[i]) is None by {
                assert(rest[i] == list[i + 1]);
            }
        }
    }
}

/// Where the first `i` entries pass, the fault is that of the rest.
proof fn lemma_fault_from<T>(list: Seq<T>, rule: spec_fn(T) -> Option<WireError>, i: int)
    requires
        0 <= i <= list.len(),
        forall|j: int| 0 <= j < i ==> rule(#[trigger] list[j]) is None,
    ensures
        first_fault(list, rule) == first_fault(list.skip(i), rule),
        i < list.len() && rule(list[i]) is Some ==> first_fault(list, rule) == rule(list[i]),
    decreases i,
{
    if i == 0 {
        assert(list.skip(0) =~= list);
    } else {
        lemma_fault_from(list, rule, i - 1);
        let rest = list.skip(i - 1);
        assert(rest[0] == list[i - 1]);
        assert(rest.drop_first() =~= list.skip(i));
    }
    if i < list.len() {
        assert(list.skip(i)[0] == list[i]);
    }
}

// ---------------------------------------------------------------------------
// The checks
// ---------------------------------------------------------------------------

/// The outcome that a possible fault stands for.
pub open spec fn outcome(fault: Option<WireError>) -> Result<(), WireError> {
    match fault {
        None => Ok(()),
        Some(e) => Err(e),
    }
}

fn validate_node_id(node_id: &str) -> (r: Result<(), WireError>)
    ensures
        r == outcome(node_id_fault(node_id@)),
{
    let n: usize = bytes_in(node_id);
    if n > MAX_NODE_ID_LEN {
        return Err(WireError::NodeIdLength(n));
    }
    Ok(())
}

fn validate_listen_addrs(listen_addrs: &Vec<ListenAddr>) -> (r: Result<(), WireError>)
    ensures
        r == outcome(listeners_fault(crate::proto::listen_views(listen_addrs@))),
{
    let ghost views = crate::proto::listen_views(listen_addrs@);
    let ghost rule = |a: crate::proto::ListenAddrView| listener_fault(a);
    if listen_addrs.len() > MAX_LISTEN_ADDRS {
        return Err(WireError::ListenAddrsCount(listen_addrs.len()));
    }
    let mut i: usize = 0;
    while i < listen_addrs.len()
        invariant
            i <= listen_addrs@.len() <= MAX_LISTEN_ADDRS,
            views == crate::proto::listen_views(listen_addrs@),
            rule == (|a: crate::proto::ListenAddrView| listener_fault(a)),
            forall|j: int| 0 <= j < i ==> rule(#[trigger] views[j]) is None,
        decreases listen_addrs@.len() - i,
    {
        let entry: &ListenAddr = &listen_addrs[i];
        assert(views[i as int] == entry@);
        let a: usize = bytes_in(entry.addr.as_str());
        if a > MAX_LISTEN_ADDR_LEN {
            proof {
                lemma_fault_from(views, rule, i as int);
            }
            return Err(WireError::ListenAddrLength(a));
        }
        let b: usize = bytes_in(entry.role.as_str());
        if b > MAX_ROLE_LEN {
            proof {
                lemma_fault_from(views, rule, i as int);
            }
            return Err(WireError::ListenRoleLength(b));
        }
        i += 1;
    }
    proof {
        lemma_no_fault(views, rule);
    }
    Ok(())
}

fn validate_roles(roles: &Vec<String>) -> (r: Result<(), WireError>)
    ensures
        r == outcome(roles_fault(crate::proto::texts(roles@))),
{
    let ghost views = crate::proto::texts(roles@);
    let ghost rule = |r: Seq<char>| role_fault(r);
    if roles.len() > MAX_NODE_ROLES {
        return Err(WireError::RolesCount(roles.len()));
    }
    let mut i: usize = 0;
    while i < roles.len()
        invariant
            i <= roles@.len() <= MAX_NODE_ROLES,
            views == crate::proto::texts(roles@),
            rule == (|r: Seq<char>| role_fault(r)),
            forall|j: int| 0 <= j < i ==> rule(#[trigger] views[j]) is None,
        decreases roles@.len() - i,
    {
        assert(views[i as int] == roles@[i as int]@);
        let n: usize = bytes_in(roles[i].as_str());
        if n > MAX_ROLE_LEN {
            proof {
                lemma_fault_from(views, rule, i as int);
            }
            return Err(WireError::RoleLength(n));
        }
        i += 1;
    }
    proof {
        lemma_no_fault(views, rule);
    }
    Ok(())
}

fn validate_hello(
    node_id: &str,
    roles: &Vec<String>,
    listen_addrs: &Vec<ListenAddr>,
) -> (r: Result<(), WireError>)
    ensures
        r == outcome(
            hello_fault(
                node_id@,
                crate::proto::texts(roles@),
                crate::proto::listen_views(listen_addrs@),
            ),
        ),
{
    if let Err(e) = validate_node_id(node_id) {
        return Err(e);
    }
    if let Err(e) = validate_roles(roles) {
        return Err(e);
    }
    validate_listen_addrs(listen_addrs)
}

fn validate_report(
    from: &str,
    target: &str,
    protocol: &str,
    observed_addr: &Option<String>,
) -> (r: Result<(), WireError>)
    ensures
        r == outcome(
            report_fault(from@, target@, protocol@, crate::proto::opt_text(*observed_addr)),
        ),
{
    if let Err(e) = validate_node_id(from) {
        return Err(e);
    }
    if let Err(e) = validate_node_id(target) {
        return Err(e);
    }
    let n: usize = bytes_in(protocol);
    if n > MAX_PROTOCOL_LEN {
        return Err(WireError::ProtocolLength(n));
    }
    if let Some(addr) = observed_addr {
        let n: usize = bytes_in(addr.as_str());
        if n > MAX_LISTEN_ADDR_LEN {
            return Err(WireError::ObservedAddrLength(n));
        }
    }
    Ok(())
}

fn validate_relayed(message: &RelayedMessage) -> (r: Result<(), WireError>)
    ensures
        r == outcome(relayed_fault(message@)),
{
    match message {
        RelayedMessage::NodeHello { node_id, roles, listen_addrs } => validate_hello(
            node_id.as_str(),
            roles,
            listen_addrs,
        ),
        RelayedMessage::ReachabilityReport { from, target, protocol, observed_addr, .. } =>
            validate_report(from.as_str(), target.as_str(), protocol.as_str(), observed_addr),
        RelayedMessage::ReachabilityProbe { from, to, .. } => {
            if let Err(e) = validate_node_id(from.as_str()) {
                return Err(e);
            }
            validate_node_id(to.as_str())
        },
    }
}

fn validate_nodes(nodes: &Vec<NodeInfo>) -> (r: Result<(), WireError>)
    ensures
        r == outcome(
            first_fault(
                nodes@.map_values(|n: NodeInfo| n@),
                |n: crate::proto::NodeInfoView| node_fault(n),
            ),
        ),
{
    let ghost views = nodes@.map_values(|n: NodeInfo| n@);
    let ghost rule = |n: crate::proto::NodeInfoView| node_fault(n);
    let mut i: usize = 0;
    while i < nodes.len()
        invariant
            i <= nodes@.len(),
            views == nodes@.map_values(|n: NodeInfo| n@),
            rule == (|n: crate::proto::NodeInfoView| node_fault(n)),
            forall|j: int| 0 <= j < i ==> rule(#[trigger] views[j]) is None,
        decreases nodes@.len() - i,
    {
        let node: &NodeInfo = &nodes[i];
        assert(views[i as int] == node@);
        if let Err(e) = validate_hello(node.node_id.as_str(), &node.roles, &node.listen_addrs) {
            proof {
                lemma_fault_from(views, rule, i as int);
            }
            return Err(e);
        }
        i += 1;
    }
    proof {
        lemma_no_fault(views, rule);
    }
    Ok(())
}

fn validate_graph_report(report: &GraphReport) -> (r: Result<(), WireError>)
    ensures
        r == outcome(graph_report_fault(report@)),
{
    validate_report(
        report.from.as_str(),
        report.target.as_str(),
        report.protocol.as_str(),
        &None,
    )
}

fn validate_reports(reports: &Vec<GraphReport>) -> (r: Result<(), WireError>)
    ensures
        r == outcome(
            first_fault(
                reports@.map_values(|r: GraphReport| r@),
                |r: crate::proto::GraphReportView| graph_report_fault(r),
            ),
        ),
{
    let ghost views = reports@.map_values(|r: GraphReport| r@);
    let ghost rule = |r: crate::proto::GraphReportView| graph_report_fault(r);
    let mut i: usize = 0;
    while i < reports.len()
        invariant
            i <= reports@.len(),
            views == reports@.map_values(|r: GraphReport| r@),
            rule == (|r: crate::proto::GraphReportView| graph_report_fault(r)),
            forall|j: int| 0 <= j < i ==> rule(#[trigger] views[j]) is None,
        decreases reports@.len() - i,
    {
        let checked: Result<(), WireError> = validate_graph_report(&reports[i]);
        assert(views[i as int] == reports@[i as int]@);
        assert(checked == outcome(rule(views[i as int])));
        if let Err(e) = checked {
            proof {
                lemma_fault_from(views, rule, i as int);
            }
            return Err(e);
        }
        i += 1;
    }
    proof {
        lemma_no_fault(views, rule);
    }
    Ok(())
}

fn validate_hops(hops: &Vec<RouteHop>) -> (r: Result<(), WireError>)
    ensures
        r == outcome(
            fault(
                crate::proto::MessageView::TunnelOpen {
                    hops: hops@.map_values(|h: RouteHop| h@),
                },
            ),
        ),
{
    let ghost views = hops@.map_values(|h: RouteHop| h@);
    let ghost rule = |h: crate::proto::HopAddrView| hop_fault(h);
    let mut i: usize = 0;
    while i < hops.len()
        invariant
            i <= hops@.len(),
            views == hops@.map_values(|h: RouteHop| h@),
            rule == (|h: crate::proto::HopAddrView| hop_fault(h)),
            forall|j: int| 0 <= j < i ==> rule(#[trigger] views[j]) is None,
        decreases hops@.len() - i,
    {
        let hop: &RouteHop = &hops[i];
        assert(views[i as int] == hop@);
        if let Err(e) = validate_node_id(hop.node_id.as_str()) {
            proof {
                lemma_fault_from(views, rule, i as int);
            }
            return Err(e);
        }
        let n: usize = bytes_in(hop.addr.as_str());
        if n > MAX_LISTEN_ADDR_LEN {
            proof {
                lemma_fault_from(views, rule, i as int);
            }
            return Err(WireError::HopAddress(n));
        }
        i += 1;
    }
    proof {
        lemma_no_fault(views, rule);
    }
    Ok(())
}

/// Bounds every peer-supplied string and list of a decoded message.
pub fn validate_message(message: &RadiiMessage) -> (r: Result<(), WireError>)
    ensures
        r == outcome(fault(message@)),
{
    match message {
        RadiiMessage::NodeHello { node_id, roles, listen_addrs } => validate_hello(
            node_id.as_str(),
            roles,
            listen_addrs,
        ),
        RadiiMessage::ReachabilityReport { from, target, protocol, observed_addr, .. } =>
            validate_report(from.as_str(), target.as_str(), protocol.as_str(), observed_addr),
        RadiiMessage::ReachabilityProbe { from, to, .. } => {
            if let Err(e) = validate_node_id(from.as_str()) {
                return Err(e);
            }
            validate_node_id(to.as_str())
        },
        RadiiMessage::FromHead { source, client_identity, message } => {
            let n: usize = bytes_in(source.as_str());
            if n > MAX_LISTEN_ADDR_LEN {
                return Err(WireError::SourceLength(n));
            }
            if let Some(identity) = client_identity {
                if let Err(e) = validate_node_id(identity.as_str()) {
                    return Err(e);
                }
            }
            validate_relayed(message)
        },
        RadiiMessage::GraphSnapshot { nodes, reports } => {
            if let Err(e) = validate_nodes(nodes) {
                return Err(e);
            }
            validate_reports(reports)
        },
        RadiiMessage::TunnelOpen { hops } => validate_hops(hops),
        RadiiMessage::Ack { .. } => Ok(()),
        RadiiMessage::GraphQuery => Ok(()),
    }
}

// ---------------------------------------------------------------------------
// What the bounds come to
// ---------------------------------------------------------------------------

/// A list has no fault exactly when none of its items has one.
pub proof fn law_no_item_no_fault<T>(list: Seq<T>, rule: spec_fn(T) -> Option<WireError>)
    ensures
        first_fault(list, rule) is None <==> forall|i: int|
            0 <= i < list.len() ==> rule(#[trigger] list[i]) is None,
    decreases list.len(),
{
    if list.len() > 0 {
        let tail = list.drop_first();
        law_no_item_no_fault(tail, rule);
        if first_fault(list, rule) is None {
            assert forall|i: int| 0 <= i < list.len() implies rule(#[trigger] list[i]) is None by {
                if i > 0 {
                    assert(rule(tail[i - 1]) is None);
                    assert(tail[i - 1] == list[i]);
                }
            }
        } else if rule(list[0]) is None {
            let j = choose|j: int| 0 <= j < tail.len() && rule(#[trigger] tail[j]) is Some;
            assert(tail[j] == list[j + 1]);
            assert(rule(list[j + 1]) is Some);
        }
    }
}

/// The fault of a list is that of the first item that has one.
pub proof fn law_the_first_fault_counts<T>(
    list: Seq<T>,
    rule: spec_fn(T) -> Option<WireError>,
    k: int,
)
    requires
        0 <= k < list.len(),
        rule(list[k]) is Some,
        forall|i: int| 0 <= i < k ==> rule(#[trigger] list[i]) is None,
    ensures
        first_fault(list, rule) == rule(list[k]),
    decreases list.len(),
{
    if k > 0 {
        let tail = list.drop_first();
        assert(rule(list[0]) is None);
        assert(tail[k - 1] == list[k]);
        assert forall|i: int| 0 <= i < k - 1 implies rule(#[trigger] tail[i]) is None by {
            assert(tail[i] == list[i + 1]);
        }
        law_the_first_fault_counts(tail, rule, k - 1);
    }
}

/// What a hello may hold: an id of 256 bytes, 16 roles of 64 bytes each, and 16
/// listeners with an address of 256 bytes and a role of 64.
pub proof fn law_hello_bounds(node_id: String, roles: Vec<String>, listen_addrs: Vec<ListenAddr>)
    ensures
        fault((RadiiMessage::NodeHello { node_id, roles, listen_addrs })@) is None <==> {
            &&& vstd::utf8::encode_utf8(node_id@).len() <= 256
            &&& roles@.len() <= 16
            &&& forall|i: int|
                0 <= i < roles@.len() ==> vstd::utf8::encode_utf8(
                    (#[trigger] roles@[i])@,
                ).len() <= 64
            &&& listen_addrs@.len() <= 16
            &&& forall|i: int|
                0 <= i < listen_addrs@.len() ==> vstd::utf8::encode_utf8(
                    (#[trigger] listen_addrs@[i]).addr@,
                ).len() <= 256 && vstd::utf8::encode_utf8(listen_addrs@[i].role@).len() <= 64
        },
{
    let texts = crate::proto::texts(roles@);
    let views = crate::proto::listen_views(listen_addrs@);
    let role_rule = |r: Seq<char>| role_fault(r);
    let listener_rule = |a: crate::proto::ListenAddrView| listener_fault(a);
    law_no_item_no_fault(texts, role_rule);
    law_no_item_no_fault(views, listener_rule);
    assert forall|i: int| 0 <= i < roles@.len() implies #[trigger] texts[i] == roles@[i]@ by {}
    assert forall|i: int| 0 <= i < listen_addrs@.len() implies #[trigger] views[i]
        == listen_addrs@[i]@ by {}
    let m = (RadiiMessage::NodeHello { node_id, roles, listen_addrs })@;
    assert(fault(m) == hello_fault(node_id@, texts, views));
    if fault(m) is None {
        assert forall|i: int| 0 <= i < roles@.len() implies vstd::utf8::encode_utf8(
            (#[trigger] roles@[i])@,
        ).len() <= 64 by {
            assert(role_rule(texts[i]) is None);
        }
        assert forall|i: int| 0 <= i < listen_addrs@.len() implies vstd::utf8::encode_utf8(
            (#[trigger] listen_addrs@[i]).addr@,
        ).len() <= 256 && vstd::utf8::encode_utf8(listen_addrs@[i].role@).len() <= 64 by {
            assert(listener_rule(views[i]) is None);
        }
    } else {
        if vstd::utf8::encode_utf8(node_id@).len() <= 256 && roles@.len() <= 16
            && listen_addrs@.len() <= 16 {
            if first_fault(texts, role_rule) is Some {
                let i = choose|i: int|
                    0 <= i < texts.len() && role_rule(#[trigger] texts[i]) is Some;
                assert(vstd::utf8::encode_utf8(roles@[i]@).len() > 64);
            } else {
                assert(first_fault(views, listener_rule) is Some);
                let i = choose|i: int|
                    0 <= i < views.len() && listener_rule(#[trigger] views[i]) is Some;
                assert(views[i] == listen_addrs@[i]@);
            }
        }
    }
}

/// A hello is refused for the first thing that is too much: its id, the number
/// of its roles, a role, the number of its listeners, or an address or a role
/// of a listener. The length or the count is told.
pub proof fn law_which_hello_fault(
    node_id: String,
    roles: Vec<String>,
    listen_addrs: Vec<ListenAddr>,
    k: int,
)
    ensures
        ({
            let told = fault((RadiiMessage::NodeHello { node_id, roles, listen_addrs })@);
            let id_len = vstd::utf8::encode_utf8(node_id@).len();
            &&& id_len > 256 ==> told == Some(WireError::NodeIdLength(id_len as usize))
            &&& id_len <= 256 && roles@.len() > 16 ==> told == Some(
                WireError::RolesCount(roles@.len() as usize),
            )
            &&& id_len <= 256 && roles@.len() <= 16 && 0 <= k < roles@.len()
                && vstd::utf8::encode_utf8(roles@[k]@).len() > 64 && (forall|i: int|
                0 <= i < k ==> vstd::utf8::encode_utf8((#[trigger] roles@[i])@).len() <= 64)
                ==> told == Some(
                WireError::RoleLength(vstd::utf8::encode_utf8(roles@[k]@).len() as usize),
            )
            &&& id_len <= 256 && roles@.len() <= 16 && (forall|i: int|
                0 <= i < roles@.len() ==> vstd::utf8::encode_utf8((#[trigger] roles@[i])@).len()
                    <= 64) ==> {
                &&& listen_addrs@.len() > 16 ==> told == Some(
                    WireError::ListenAddrsCount(listen_addrs@.len() as usize),
                )
                &&& listen_addrs@.len() <= 16 && 0 <= k < listen_addrs@.len() && (forall|i: int|
                    0 <= i < k ==> vstd::utf8::encode_utf8(
                        (#[trigger] listen_addrs@[i]).addr@,
                    ).len() <= 256 && vstd::utf8::encode_utf8(listen_addrs@[i].role@).len() <= 64)
                    ==> {
                    let addr_len = vstd::utf8::encode_utf8(listen_addrs@[k].addr@).len();
                    let role_len = vstd::utf8::encode_utf8(listen_addrs@[k].role@).len();
                    &&& addr_len > 256 ==> told == Some(
                        WireError::ListenAddrLength(addr_len as usize),
                    )
                    &&& addr_len <= 256 && role_len > 64 ==> told == Some(
                        WireError::ListenRoleLength(role_len as usize),
                    )
                }
            }
        }),
{
    let texts = crate::proto::texts(roles@);
    let views = crate::proto::listen_views(listen_addrs@);
    let role_rule = |r: Seq<char>| role_fault(r);
    let listener_rule = |a: crate::proto::ListenAddrView| listener_fault(a);
    law_no_item_no_fault(texts, role_rule);
    law_no_item_no_fault(views, listener_rule);
    assert forall|i: int| 0 <= i < texts.len() implies #[trigger] texts[i] == roles@[i]@ by {}
    assert forall|i: int| 0 <= i < views.len() implies #[trigger] views[i]
        == listen_addrs@[i]@ by {}
    let m = (RadiiMessage::NodeHello { node_id, roles, listen_addrs })@;
    assert(fault(m) == hello_fault(node_id@, texts, views));
    if 0 <= k < roles@.len() {
        assert(texts[k] == roles@[k]@);
        if vstd::utf8::encode_utf8(roles@[k]@).len() > 64 && (forall|i: int|
            0 <= i < k ==> vstd::utf8::encode_utf8((#[trigger] roles@[i])@).len() <= 64) {
            assert forall|i: int| 0 <= i < k implies role_rule(#[trigger] texts[i]) is None by {
                assert(vstd::utf8::encode_utf8(roles@[i]@).len() <= 64);
            }
            assert(role_rule(texts[k]) is Some);
            law_the_first_fault_counts(texts, role_rule, k);
        }
    }
    if forall|i: int|
        0 <= i < roles@.len() ==> vstd::utf8::encode_utf8((#[trigger] roles@[i])@).len() <= 64 {
        assert forall|i: int| 0 <= i < texts.len() implies role_rule(
            #[trigger] texts[i],
        ) is None by {
            assert(vstd::utf8::encode_utf8(roles@[i]@).len() <= 64);
        }
        assert(first_fault(texts, role_rule) is None);
    }
    if 0 <= k < listen_addrs@.len() && (forall|i: int|
        0 <= i < k ==> vstd::utf8::encode_utf8((#[trigger] listen_addrs@[i]).addr@).len() <= 256
            && vstd::utf8::encode_utf8(listen_addrs@[i].role@).len() <= 64) {
        assert(views[k] == listen_addrs@[k]@);
        assert forall|i: int| 0 <= i < k implies listener_rule(#[trigger] views[i]) is None by {
            assert(vstd::utf8::encode_utf8(listen_addrs@[i].addr@).len() <= 256);
        }
        if listener_rule(views[k]) is Some {
            law_the_first_fault_counts(views, listener_rule, k);
        }
    }
}

/// What a probe and a report may hold, and which of the things that are too
/// much is told.
pub proof fn law_report_bounds(
    from: String,
    target: String,
    protocol: String,
    reachable: bool,
    rtt_ms: Option<u32>,
    observed_addr: Option<String>,
    sent_at_unix_ms: u64,
)
    ensures
        ({
            let from_len = vstd::utf8::encode_utf8(from@).len();
            let target_len = vstd::utf8::encode_utf8(target@).len();
            let protocol_len = vstd::utf8::encode_utf8(protocol@).len();
            fault(
                (RadiiMessage::ReachabilityReport {
                    from,
                    target,
                    protocol,
                    reachable,
                    rtt_ms,
                    observed_addr,
                })@,
            ) == if from_len > 256 {
                Some(WireError::NodeIdLength(from_len as usize))
            } else if target_len > 256 {
                Some(WireError::NodeIdLength(target_len as usize))
            } else if protocol_len > 64 {
                Some(WireError::ProtocolLength(protocol_len as usize))
            } else if observed_addr is Some && vstd::utf8::encode_utf8(observed_addr->0@).len()
                > 256 {
                Some(
                    WireError::ObservedAddrLength(
                        vstd::utf8::encode_utf8(observed_addr->0@).len() as usize,
                    ),
                )
            } else {
                None
            }
        }),
        fault(
            (RadiiMessage::ReachabilityProbe { from, to: target, sent_at_unix_ms })@,
        ) is None <==> vstd::utf8::encode_utf8(from@).len() <= 256 && vstd::utf8::encode_utf8(
            target@,
        ).len() <= 256,
        fault(
            (RadiiMessage::ReachabilityProbe { from, to: target, sent_at_unix_ms })@,
        ) is Some ==> fault(
            (RadiiMessage::ReachabilityProbe { from, to: target, sent_at_unix_ms })@,
        ) == fault(
            (RadiiMessage::ReachabilityReport {
                from,
                target,
                protocol,
                reachable,
                rtt_ms,
                observed_addr,
            })@,
        ),
{
}

/// An envelope is refused for a source or an identity of more than 256 bytes,
/// and else for what the message it carries would be refused for by itself.
pub proof fn law_envelope_bounds(
    source: String,
    client_identity: Option<String>,
    message: RelayedMessage,
)
    ensures
        fault((RadiiMessage::FromHead { source, client_identity, message })@) == {
            let source_len = vstd::utf8::encode_utf8(source@).len();
            if source_len > 256 {
                Some(WireError::SourceLength(source_len as usize))
            } else if client_identity is Some && vstd::utf8::encode_utf8(
                client_identity->0@,
            ).len() > 256 {
                Some(
                    WireError::NodeIdLength(
                        vstd::utf8::encode_utf8(client_identity->0@).len() as usize,
                    ),
                )
            } else {
                fault(message@.direct())
            }
        },
{
    law_relayed_bounds_match_direct(message@);
}

/// A snapshot is accepted exactly when each of its nodes would be accepted in a
/// hello and each of its reports in a message of its own. Queries and
/// acknowledgements are never refused.
pub proof fn law_snapshot_bounds(nodes: Vec<NodeInfo>, reports: Vec<GraphReport>, status: String)
    ensures
        fault((RadiiMessage::GraphSnapshot { nodes, reports })@) is None <==> {
            &&& forall|i: int|
                0 <= i < nodes@.len() ==> fault(
                    (RadiiMessage::NodeHello {
                        node_id: (#[trigger] nodes@[i]).node_id,
                        roles: nodes@[i].roles,
                        listen_addrs: nodes@[i].listen_addrs,
                    })@,
                ) is None
            &&& forall|i: int|
                0 <= i < reports@.len() ==> fault(
                    (RadiiMessage::ReachabilityReport {
                        from: (#[trigger] reports@[i]).from,
                        target: reports@[i].target,
                        protocol: reports@[i].protocol,
                        reachable: reports@[i].reachable,
                        rtt_ms: reports@[i].rtt_ms,
                        observed_addr: None,
                    })@,
                ) is None
        },
        fault(RadiiMessage::GraphQuery@) is None,
        fault((RadiiMessage::Ack { status })@) is None,
{
    let node_views = nodes@.map_values(|n: NodeInfo| n@);
    let report_views = reports@.map_values(|r: GraphReport| r@);
    let node_rule = |n: crate::proto::NodeInfoView| node_fault(n);
    let report_rule = |r: crate::proto::GraphReportView| graph_report_fault(r);
    law_no_item_no_fault(node_views, node_rule);
    law_no_item_no_fault(report_views, report_rule);
    let m = (RadiiMessage::GraphSnapshot { nodes, reports })@;
    assert(fault(m) == either(
        first_fault(node_views, node_rule),
        first_fault(report_views, report_rule),
    ));
    assert forall|i: int| 0 <= i < nodes@.len() implies node_rule(#[trigger] node_views[i])
        == fault(
        (RadiiMessage::NodeHello {
            node_id: nodes@[i].node_id,
            roles: nodes@[i].roles,
            listen_addrs: nodes@[i].listen_addrs,
        })@,
    ) by {}
    assert forall|i: int| 0 <= i < reports@.len() implies report_rule(#[trigger] report_views[i])
        == fault(
        (RadiiMessage::ReachabilityReport {
            from: reports@[i].from,
            target: reports@[i].target,
            protocol: reports@[i].protocol,
            reachable: reports@[i].reachable,
            rtt_ms: reports@[i].rtt_ms,
            observed_addr: None,
        })@,
    ) by {}
    if fault(m) is None {
        assert forall|i: int| 0 <= i < nodes@.len() implies fault(
            (RadiiMessage::NodeHello {
                node_id: (#[trigger] nodes@[i]).node_id,
                roles: nodes@[i].roles,
                listen_addrs: nodes@[i].listen_addrs,
            })@,
        ) is None by {
            assert(node_rule(node_views[i]) is None);
        }
        assert forall|i: int| 0 <= i < reports@.len() implies fault(
            (RadiiMessage::ReachabilityReport {
                from: (#[trigger] reports@[i]).from,
                target: reports@[i].target,
                protocol: reports@[i].protocol,
                reachable: reports@[i].reachable,
                rtt_ms: reports@[i].rtt_ms,
                observed_addr: None,
            })@,
        ) is None by {
            assert(report_rule(report_views[i]) is None);
        }
    } else if first_fault(node_views, node_rule) is Some {
        let i = choose|i: int|
            0 <= i < node_views.len() && node_rule(#[trigger] node_views[i]) is Some;
        assert(nodes@[i]@ == node_views[i]);
    } else {
        let i = choose|i: int|
            0 <= i < report_views.len() && report_rule(#[trigger] report_views[i]) is Some;
        assert(reports@[i]@ == report_views[i]);
    }
}

/// A tunnel's hops are bounded one by one: an id of 256 bytes and an address of
/// 256. The first that is too long is told.
pub proof fn law_tunnel_bounds(hops: Vec<RouteHop>, k: int)
    ensures
        ({
            let told = fault((RadiiMessage::TunnelOpen { hops })@);
            &&& told is None <==> forall|i: int|
                0 <= i < hops@.len() ==> vstd::utf8::encode_utf8(
                    (#[trigger] hops@[i]).node_id@,
                ).len() <= 256 && vstd::utf8::encode_utf8(hops@[i].addr@).len() <= 256
            &&& 0 <= k < hops@.len() && (forall|i: int|
                0 <= i < k ==> vstd::utf8::encode_utf8((#[trigger] hops@[i]).node_id@).len()
                    <= 256 && vstd::utf8::encode_utf8(hops@[i].addr@).len() <= 256) ==> {
                let id_len = vstd::utf8::encode_utf8(hops@[k].node_id@).len();
                let addr_len = vstd::utf8::encode_utf8(hops@[k].addr@).len();
                &&& id_len > 256 ==> told == Some(WireError::NodeIdLength(id_len as usize))
                &&& id_len <= 256 && addr_len > 256 ==> told == Some(
                    WireError::HopAddress(addr_len as usize),
                )
            }
        }),
{
    let views = hops@.map_values(|h: RouteHop| h@);
    let rule = |h: crate::proto::HopAddrView| hop_fault(h);
    law_no_item_no_fault(views, rule);
    let m = (RadiiMessage::TunnelOpen { hops })@;
    assert(fault(m) == first_fault(views, rule));
    assert forall|i: int| 0 <= i < hops@.len() implies #[trigger] views[i] == hops@[i]@ by {}
    if fault(m) is None {
        assert forall|i: int| 0 <= i < hops@.len() implies vstd::utf8::encode_utf8(
            (#[trigger] hops@[i]).node_id@,
        ).len() <= 256 && vstd::utf8::encode_utf8(hops@[i].addr@).len() <= 256 by {
            assert(rule(views[i]) is None);
        }
    } else {
        let i = choose|i: int| 0 <= i < views.len() && rule(#[trigger] views[i]) is Some;
        assert(hops@[i]@ == views[i]);
    }
    if 0 <= k < hops@.len() && (forall|i: int|
        0 <= i < k ==> vstd::utf8::encode_utf8((#[trigger] hops@[i]).node_id@).len() <= 256
            && vstd::utf8::encode_utf8(hops@[i].addr@).len() <= 256) {
        assert forall|i: int| 0 <= i < k implies rule(#[trigger] views[i]) is None by {
            assert(vstd::utf8::encode_utf8(hops@[i].node_id@).len() <= 256);
        }
        if rule(views[k]) is Some {
            law_the_first_fault_counts(views, rule, k);
        }
    }
}

/// Every refusal says what was too long, how long it was and what it may be.
pub proof fn law_refusals_name_the_limit(n: usize, m: u32)
    ensures
        WireError::FrameTooLarge.words() == "frame too large"@,
        WireError::FrameLength(m).words() == "frame length "@ + crate::text::decimal_of(m as nat)
            + " exceeds max "@ + crate::text::decimal_of(1_048_576),
        WireError::HopCount(n).words() == "tunnel_open hop count "@ + crate::text::decimal_of(
            n as nat,
        ) + " outside 1..="@ + crate::text::decimal_of(32),
        WireError::HopAddress(n).words() == "tunnel_open hop address length "@
            + crate::text::decimal_of(n as nat) + " exceeds "@ + crate::text::decimal_of(256),
        WireError::SourceLength(n).words() == "from_head source length "@
            + crate::text::decimal_of(n as nat) + " exceeds "@ + crate::text::decimal_of(256),
        WireError::NodeIdLength(n).words() == "node id length "@ + crate::text::decimal_of(
            n as nat,
        ) + " exceeds "@ + crate::text::decimal_of(256),
        WireError::RolesCount(n).words() == "node_hello roles count "@ + crate::text::decimal_of(
            n as nat,
        ) + " exceeds "@ + crate::text::decimal_of(16),
        WireError::RoleLength(n).words() == "node_hello role length "@ + crate::text::decimal_of(
            n as nat,
        ) + " exceeds "@ + crate::text::decimal_of(64),
        WireError::ListenAddrsCount(n).words() == "node_hello listen_addrs count "@
            + crate::text::decimal_of(n as nat) + " exceeds "@ + crate::text::decimal_of(16),
        WireError::ListenAddrLength(n).words() == "node_hello listen address length "@
            + crate::text::decimal_of(n as nat) + " exceeds "@ + crate::text::decimal_of(256),
        WireError::ListenRoleLength(n).words() == "node_hello listen address role length "@
            + crate::text::decimal_of(n as nat) + " exceeds "@ + crate::text::decimal_of(64),
        WireError::ProtocolLength(n).words() == "report protocol length "@
            + crate::text::decimal_of(n as nat) + " exceeds "@ + crate::text::decimal_of(64),
        WireError::ObservedAddrLength(n).words() == "report observed address length "@
            + crate::text::decimal_of(n as nat) + " exceeds "@ + crate::text::decimal_of(256),
{
}

} // verus!
