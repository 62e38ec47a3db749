//! Messages as an error or a log shows them.
//!
//! A string stands in quotes, with what would not print escaped; a number and
//! a flag stand as they are. A list is its items in brackets, a struct its name
//! and its fields in braces.

use crate::codec::Wire;
use crate::proto::{GraphReport, ListenAddr, NodeInfo, RadiiMessage, RelayedMessage, RouteHop};
use crate::text::{decimal, join};
use vstd::prelude::*;
use vstd::string::*;

verus! {

// ---------------------------------------------------------------------------
// Strings
// ---------------------------------------------------------------------------

/// A string as the standard library's `Debug` writes it.
pub uninterp spec fn debug_text(text: Seq<char>) -> Seq<char>;

/// The standard library's `Debug` of a `str`: the text in quotes, with its
/// escapes. The claim is only that the same text is always written the same
/// way; which characters are escaped is not stated.
#[verifier::external_body]
pub(crate) fn quote(text: &str) -> (r: String)
    ensures
        r@ == debug_text(text@),
{
    format!("{text:?}")
}

// ---------------------------------------------------------------------------
// Values
// ---------------------------------------------------------------------------

/// A value that can be shown: first its strings are quoted, then it is laid
/// out with its strings as they are.
pub trait Shown: Wire {
    /// The value with every string in it quoted.
    spec fn quoted(v: Self::Seen) -> Self::Seen;

    /// The value as text.
    spec fn layout(v: Self::Seen) -> Seq<char>;

    /// The value with every string in it quoted.
    fn with_quotes(&self) -> (r: Self)
        ensures
            r.seen() == Self::quoted(self.seen()),
    ;

    /// The value as text.
    fn lay_out(&self) -> (r: String)
        ensures
            r@ == Self::layout(self.seen()),
    ;
}

impl Shown for String {
    open spec fn quoted(v: Seq<char>) -> Seq<char> {
        debug_text(v)
    }

    open spec fn layout(v: Seq<char>) -> Seq<char> {
        v
    }

    fn with_quotes(&self) -> (r: Self) {
        quote(self.as_str())
    }

    fn lay_out(&self) -> (r: String) {
        self.clone()
    }
}

impl Shown for bool {
    open spec fn quoted(v: bool) -> bool {
        v
    }

    open spec fn layout(v: bool) -> Seq<char> {
        if v {
            "true"@
        } else {
            "false"@
        }
    }

    fn with_quotes(&self) -> (r: Self) {
        *self
    }

    fn lay_out(&self) -> (r: String) {
        if *self {
            "true".to_owned()
        } else {
            "false".to_owned()
        }
    }
}

impl Shown for u32 {
    open spec fn quoted(v: u32) -> u32 {
        v
    }

    open spec fn layout(v: u32) -> Seq<char> {
        crate::text::decimal_of(v as nat)
    }

    fn with_quotes(&self) -> (r: Self) {
        *self
    }

    fn lay_out(&self) -> (r: String) {
        decimal(*self as u128)
    }
}

impl Shown for u64 {
    open spec fn quoted(v: u64) -> u64 {
        v
    }

    open spec fn layout(v: u64) -> Seq<char> {
        crate::text::decimal_of(v as nat)
    }

    fn with_quotes(&self) -> (r: Self) {
        *self
    }

    fn lay_out(&self) -> (r: String) {
        decimal(*self as u128)
    }
}

impl<T: Shown> Shown for Option<T> {
    open spec fn quoted(v: Option<T::Seen>) -> Option<T::Seen> {
        match v {
            None => None,
            Some(x) => Some(T::quoted(x)),
        }
    }

    open spec fn layout(v: Option<T::Seen>) -> Seq<char> {
        match v {
            None => "None"@,
            Some(x) => "Some("@ + T::layout(x) + ")"@,
        }
    }

    fn with_quotes(&self) -> (r: Self) {
        match self {
            None => None,
            Some(x) => Some(x.with_quotes()),
        }
    }

    fn lay_out(&self) -> (r: String) {
        match self {
            None => "None".to_owned(),
            Some(x) => {
                let mut r: String = "Some(".to_owned();
                r.append(x.lay_out().as_str());
                r.append(")");
                r
            },
        }
    }
}

impl<T: Shown> Shown for Vec<T> {
    open spec fn quoted(v: Seq<T::Seen>) -> Seq<T::Seen> {
        v.map_values(|x: T::Seen| T::quoted(x))
    }

    open spec fn layout(v: Seq<T::Seen>) -> Seq<char> {
        "["@ + crate::text::joined(v.map_values(|x: T::Seen| T::layout(x)), ", "@) + "]"@
    }

    fn with_quotes(&self) -> (r: Self) {
        let mut r: Vec<T> = Vec::new();
        let mut i: usize = 0;
        while i < self.len()
            invariant
                i <= self@.len(),
                r@.len() == i,
                forall|j: int|
                    0 <= j < i ==> (#[trigger] r@[j]).seen() == T::quoted(self@[j].seen()),
            decreases self@.len() - i,
        {
            r.push(self[i].with_quotes());
            i += 1;
        }
        assert(r.seen() =~= Self::quoted(self.seen()));
        r
    }

    fn lay_out(&self) -> (r: String) {
        let mut items: Vec<String> = Vec::new();
        let mut i: usize = 0;
        while i < self.len()
            invariant
                i <= self@.len(),
                items@.len() == i,
                forall|j: int|
                    0 <= j < i ==> (#[trigger] items@[j])@ == T::layout(self@[j].seen()),
            decreases self@.len() - i,
        {
            items.push(self[i].lay_out());
            i += 1;
        }
        assert(items@.map_values(|s: String| s@) =~= self.seen().map_values(
            |x: T::Seen| T::layout(x),
        ));
        let mut r: String = "[".to_owned();
        r.append(join(&items, ", ").as_str());
        r.append("]");
        r
    }
}

// ---------------------------------------------------------------------------
// Messages
// ---------------------------------------------------------------------------

proof fn lemma_opt(text: Option<String>)
    ensures
        text.seen() == crate::proto::opt_text(text),
{
}

proof fn lemma_texts(list: Vec<String>)
    ensures
        list.seen() == crate::proto::texts(list@),
{
    assert(list.seen() =~= crate::proto::texts(list@));
}

proof fn lemma_listeners(list: Vec<ListenAddr>)
    ensures
        list.seen() == crate::proto::listen_views(list@),
{
    assert(list.seen() =~= crate::proto::listen_views(list@));
}

proof fn lemma_nodes(list: Vec<NodeInfo>)
    ensures
        list.seen() == list@.map_values(|n: NodeInfo| n@),
{
    assert(list.seen() =~= list@.map_values(|n: NodeInfo| n@));
}

proof fn lemma_reports(list: Vec<GraphReport>)
    ensures
        list.seen() == list@.map_values(|r: GraphReport| r@),
{
    assert(list.seen() =~= list@.map_values(|r: GraphReport| r@));
}

proof fn lemma_hops(list: Vec<RouteHop>)
    ensures
        list.seen() == list@.map_values(|h: RouteHop| h@),
{
    assert(list.seen() =~= list@.map_values(|h: RouteHop| h@));
}

impl Shown for RouteHop {
    open spec fn quoted(v: crate::proto::HopAddrView) -> crate::proto::HopAddrView {
        crate::proto::HopAddrView {
            node_id: String::quoted(v.node_id),
            addr: String::quoted(v.addr),
        }
    }

    open spec fn layout(v: crate::proto::HopAddrView) -> Seq<char> {
        "RouteHop { node_id: "@ + String::layout(v.node_id)
            + ", addr: "@ + String::layout(v.addr) + " }"@
    }

    fn with_quotes(&self) -> (r: Self) {
        RouteHop {
            node_id: self.node_id.with_quotes(),
            addr: self.addr.with_quotes(),
        }
    }

    fn lay_out(&self) -> (r: String) {
        let mut r: String = "RouteHop { node_id: ".to_owned();
        r.append(self.node_id.lay_out().as_str());
        r.append(", addr: ");
        r.append(self.addr.lay_out().as_str());
        r.append(" }");
        r
    }
}

impl Shown for ListenAddr {
    open spec fn quoted(v: crate::proto::ListenAddrView) -> crate::proto::ListenAddrView {
        crate::proto::ListenAddrView {
            addr: String::quoted(v.addr),
            role: String::quoted(v.role),
        }
    }

    open spec fn layout(v: crate::proto::ListenAddrView) -> Seq<char> {
        "ListenAddr { addr: "@ + String::layout(v.addr)
            + ", role: "@ + String::layout(v.role) + " }"@
    }

    fn with_quotes(&self) -> (r: Self) {
        ListenAddr {
            addr: self.addr.with_quotes(),
            role: self.role.with_quotes(),
        }
    }

    fn lay_out(&self) -> (r: String) {
        let mut r: String = "ListenAddr { addr: ".to_owned();
        r.append(self.addr.lay_out().as_str());
        r.append(", role: ");
        r.append(self.role.lay_out().as_str());
        r.append(" }");
        r
    }
}

impl Shown for NodeInfo {
    open spec fn quoted(v: crate::proto::NodeInfoView) -> crate::proto::NodeInfoView {
        crate::proto::NodeInfoView {
            node_id: String::quoted(v.node_id),
            listen_addrs: <Vec<ListenAddr>>::quoted(v.listen_addrs),
            roles: <Vec<String>>::quoted(v.roles),
        }
    }

    open spec fn layout(v: crate::proto::NodeInfoView) -> Seq<char> {
        "NodeInfo { node_id: "@ + String::layout(v.node_id)
            + ", listen_addrs: "@ + <Vec<ListenAddr>>::layout(v.listen_addrs)
            + ", roles: "@ + <Vec<String>>::layout(v.roles) + " }"@
    }

    fn with_quotes(&self) -> (r: Self) {
        let r: NodeInfo = NodeInfo {
            node_id: self.node_id.with_quotes(),
            listen_addrs: self.listen_addrs.with_quotes(),
            roles: self.roles.with_quotes(),
        };
        proof {
            lemma_listeners(self.listen_addrs);
            lemma_listeners(r.listen_addrs);
            lemma_texts(self.roles);
            lemma_texts(r.roles);
        }
        r
    }

    fn lay_out(&self) -> (r: String) {
        proof {
            lemma_listeners(self.listen_addrs);
            lemma_texts(self.roles);
        }
        let mut r: String = "NodeInfo { node_id: ".to_owned();
        r.append(self.node_id.lay_out().as_str());
        r.append(", listen_addrs: ");
        r.append(self.listen_addrs.lay_out().as_str());
        r.append(", roles: ");
        r.append(self.roles.lay_out().as_str());
        r.append(" }");
        r
    }
}

impl Shown for GraphReport {
    open spec fn quoted(v: crate::proto::GraphReportView) -> crate::proto::GraphReportView {
        crate::proto::GraphReportView {
            from: String::quoted(v.from),
            target: String::quoted(v.target),
            protocol: String::quoted(v.protocol),
            reachable: bool::quoted(v.reachable),
            rtt_ms: <Option<u32>>::quoted(v.rtt_ms),
        }
    }

    open spec fn layout(v: crate::proto::GraphReportView) -> Seq<char> {
        "GraphReport { from: "@ + String::layout(v.from)
            + ", target: "@ + String::layout(v.target)
            + ", protocol: "@ + String::layout(v.protocol)
            + ", reachable: "@ + bool::layout(v.reachable)
            + ", rtt_ms: "@ + <Option<u32>>::layout(v.rtt_ms) + " }"@
    }

    fn with_quotes(&self) -> (r: Self) {
        GraphReport {
            from: self.from.with_quotes(),
            target: self.target.with_quotes(),
            protocol: self.protocol.with_quotes(),
            reachable: self.reachable.with_quotes(),
            rtt_ms: self.rtt_ms.with_quotes(),
        }
    }

    fn lay_out(&self) -> (r: String) {
        let mut r: String = "GraphReport { from: ".to_owned();
        r.append(self.from.lay_out().as_str());
        r.append(", target: ");
        r.append(self.target.lay_out().as_str());
        r.append(", protocol: ");
        r.append(self.protocol.lay_out().as_str());
        r.append(", reachable: ");
        r.append(self.reachable.lay_out().as_str());
        r.append(", rtt_ms: ");
        r.append(self.rtt_ms.lay_out().as_str());
        r.append(" }");
        r
    }
}

impl Shown for RelayedMessage {
    open spec fn quoted(v: crate::proto::RelayedView) -> crate::proto::RelayedView {
        match v {
            crate::proto::RelayedView::NodeHello {
                node_id,
                roles,
                listen_addrs,
            } => crate::proto::RelayedView::NodeHello {
                node_id: String::quoted(node_id),
                roles: <Vec<String>>::quoted(roles),
                listen_addrs: <Vec<ListenAddr>>::quoted(listen_addrs),
            },
            crate::proto::RelayedView::ReachabilityProbe {
                from,
                to,
                sent_at_unix_ms,
            } => crate::proto::RelayedView::ReachabilityProbe {
                from: String::quoted(from),
                to: String::quoted(to),
                sent_at_unix_ms: u64::quoted(sent_at_unix_ms),
            },
            crate::proto::RelayedView::ReachabilityReport {
                from,
                target,
                protocol,
                reachable,
                rtt_ms,
                observed_addr,
            } => crate::proto::RelayedView::ReachabilityReport {
                from: String::quoted(from),
                target: String::quoted(target),
                protocol: String::quoted(protocol),
                reachable: bool::quoted(reachable),
                rtt_ms: <Option<u32>>::quoted(rtt_ms),
                observed_addr: <Option<String>>::quoted(observed_addr),
            },
        }
    }

    open spec fn layout(v: crate::proto::RelayedView) -> Seq<char> {
        match v {
            crate::proto::RelayedView::NodeHello { node_id, roles, listen_addrs } =>
                "NodeHello { node_id: "@ + String::layout(node_id)
                    + ", roles: "@ + <Vec<String>>::layout(roles)
                    + ", listen_addrs: "@ + <Vec<ListenAddr>>::layout(listen_addrs) + " }"@,
            crate::proto::RelayedView::ReachabilityProbe { from, to, sent_at_unix_ms } =>
                "ReachabilityProbe { from: "@ + String::layout(from)
                    + ", to: "@ + String::layout(to)
                    + ", sent_at_unix_ms: "@ + u64::layout(sent_at_unix_ms) + " }"@,
            crate::proto::RelayedView::ReachabilityReport {
                from,
                target,
                protocol,
                reachable,
                rtt_ms,
                observed_addr,
            } =>
                "ReachabilityReport { from: "@ + String::layout(from)
                    + ", target: "@ + String::layout(target)
                    + ", protocol: "@ + String::layout(protocol)
                    + ", reachable: "@ + bool::layout(reachable)
                    + ", rtt_ms: "@ + <Option<u32>>::layout(rtt_ms)
                    + ", observed_addr: "@ + <Option<String>>::layout(observed_addr) + " }"@,
        }
    }

    fn with_quotes(&self) -> (r: Self) {
        match self {
            RelayedMessage::NodeHello { node_id, roles, listen_addrs } => {
                let q_node_id: String = node_id.with_quotes();
                let q_roles: Vec<String> = roles.with_quotes();
                let q_listen_addrs: Vec<ListenAddr> = listen_addrs.with_quotes();
                proof {
                    lemma_texts(*roles);
                    lemma_texts(q_roles);
                    lemma_listeners(*listen_addrs);
                    lemma_listeners(q_listen_addrs);
                }
                RelayedMessage::NodeHello {
                    node_id: q_node_id,
                    roles: q_roles,
                    listen_addrs: q_listen_addrs,
                }
            },
            RelayedMessage::ReachabilityProbe { from, to, sent_at_unix_ms } => {
                let q_from: String = from.with_quotes();
                let q_to: String = to.with_quotes();
                let q_sent_at_unix_ms: u64 = sent_at_unix_ms.with_quotes();
                RelayedMessage::ReachabilityProbe {
                    from: q_from,
                    to: q_to,
                    sent_at_unix_ms: q_sent_at_unix_ms,
                }
            },
            RelayedMessage::ReachabilityReport {
                from,
                target,
                protocol,
                reachable,
                rtt_ms,
                observed_addr,
            } => {
                let q_from: String = from.with_quotes();
                let q_target: String = target.with_quotes();
                let q_protocol: String = protocol.with_quotes();
                let q_reachable: bool = reachable.with_quotes();
                let q_rtt_ms: Option<u32> = rtt_ms.with_quotes();
                let q_observed_addr: Option<String> = observed_addr.with_quotes();
                proof {
                    lemma_opt(*observed_addr);
                    lemma_opt(q_observed_addr);
                }
                RelayedMessage::ReachabilityReport {
                    from: q_from,
                    target: q_target,
                    protocol: q_protocol,
                    reachable: q_reachable,
                    rtt_ms: q_rtt_ms,
                    observed_addr: q_observed_addr,
                }
            },
        }
    }

    fn lay_out(&self) -> (r: String) {
        match self {
            RelayedMessage::NodeHello { node_id, roles, listen_addrs } => {
                proof {
                    lemma_texts(*roles);
                    lemma_listeners(*listen_addrs);
                }
                let mut r: String = "NodeHello { node_id: ".to_owned();
                r.append(node_id.lay_out().as_str());
                r.append(", roles: ");
                r.append(roles.lay_out().as_str());
                r.append(", listen_addrs: ");
                r.append(listen_addrs.lay_out().as_str());
                r.append(" }");
                r
            },
            RelayedMessage::ReachabilityProbe { from, to, sent_at_unix_ms } => {
                let mut r: String = "ReachabilityProbe { from: ".to_owned();
                r.append(from.lay_out().as_str());
                r.append(", to: ");
                r.append(to.lay_out().as_str());
                r.append(", sent_at_unix_ms: ");
                r.append(sent_at_unix_ms.lay_out().as_str());
                r.append(" }");
                r
            },
            RelayedMessage::ReachabilityReport {
                from,
                target,
                protocol,
                reachable,
                rtt_ms,
                observed_addr,
            } => {
                proof {
                    lemma_opt(*observed_addr);
                }
                let mut r: String = "ReachabilityReport { from: ".to_owned();
                r.append(from.lay_out().as_str());
                r.append(", target: ");
                r.append(target.lay_out().as_str());
                r.append(", protocol: ");
                r.append(protocol.lay_out().as_str());
                r.append(", reachable: ");
                r.append(reachable.lay_out().as_str());
                r.append(", rtt_ms: ");
                r.append(rtt_ms.lay_out().as_str());
                r.append(", observed_addr: ");
                r.append(observed_addr.lay_out().as_str());
                r.append(" }");
                r
            },
        }
    }
}

impl Shown for RadiiMessage {
    open spec fn quoted(v: crate::proto::MessageView) -> crate::proto::MessageView {
        match v {
            crate::proto::MessageView::NodeHello {
                node_id,
                roles,
                listen_addrs,
            } => crate::proto::MessageView::NodeHello {
                node_id: String::quoted(node_id),
                roles: <Vec<String>>::quoted(roles),
                listen_addrs: <Vec<ListenAddr>>::quoted(listen_addrs),
            },
            crate::proto::MessageView::ReachabilityProbe {
                from,
                to,
                sent_at_unix_ms,
            } => crate::proto::MessageView::ReachabilityProbe {
                from: String::quoted(from),
                to: String::quoted(to),
                sent_at_unix_ms: u64::quoted(sent_at_unix_ms),
            },
            crate::proto::MessageView::ReachabilityReport {
                from,
                target,
                protocol,
                reachable,
                rtt_ms,
                observed_addr,
            } => crate::proto::MessageView::ReachabilityReport {
                from: String::quoted(from),
                target: String::quoted(target),
                protocol: String::quoted(protocol),
                reachable: bool::quoted(reachable),
                rtt_ms: <Option<u32>>::quoted(rtt_ms),
                observed_addr: <Option<String>>::quoted(observed_addr),
            },
            crate::proto::MessageView::FromHead {
                source,
                client_identity,
                message,
            } => crate::proto::MessageView::FromHead {
                source: String::quoted(source),
                client_identity: <Option<String>>::quoted(client_identity),
                message: RelayedMessage::quoted(message),
            },
            crate::proto::MessageView::GraphQuery => v,
            crate::proto::MessageView::GraphSnapshot {
                nodes,
                reports,
            } => crate::proto::MessageView::GraphSnapshot {
                nodes: <Vec<NodeInfo>>::quoted(nodes),
                reports: <Vec<GraphReport>>::quoted(reports),
            },
            crate::proto::MessageView::Ack { status } => crate::proto::MessageView::Ack {
                status: String::quoted(status),
            },
            crate::proto::MessageView::TunnelOpen {
                hops,
            } => crate::proto::MessageView::TunnelOpen {
                hops: <Vec<RouteHop>>::quoted(hops),
            },
        }
    }

    open spec fn layout(v: crate::proto::MessageView) -> Seq<char> {
        match v {
            crate::proto::MessageView::NodeHello { node_id, roles, listen_addrs } =>
                "NodeHello { node_id: "@ + String::layout(node_id)
                    + ", roles: "@ + <Vec<String>>::layout(roles)
                    + ", listen_addrs: "@ + <Vec<ListenAddr>>::layout(listen_addrs) + " }"@,
            crate::proto::MessageView::ReachabilityProbe { from, to, sent_at_unix_ms } =>
                "ReachabilityProbe { from: "@ + String::layout(from)
                    + ", to: "@ + String::layout(to)
                    + ", sent_at_unix_ms: "@ + u64::layout(sent_at_unix_ms) + " }"@,
            crate::proto::MessageView::ReachabilityReport {
                from,
                target,
                protocol,
                reachable,
                rtt_ms,
                observed_addr,
            } =>
                "ReachabilityReport { from: "@ + String::layout(from)
                    + ", target: "@ + String::layout(target)
                    + ", protocol: "@ + String::layout(protocol)
                    + ", reachable: "@ + bool::layout(reachable)
                    + ", rtt_ms: "@ + <Option<u32>>::layout(rtt_ms)
                    + ", observed_addr: "@ + <Option<String>>::layout(observed_addr) + " }"@,
            crate::proto::MessageView::FromHead { source, client_identity, message } =>
                "FromHead { source: "@ + String::layout(source)
                    + ", client_identity: "@ + <Option<String>>::layout(client_identity)
                    + ", message: "@ + RelayedMessage::layout(message) + " }"@,
            crate::proto::MessageView::GraphQuery => "GraphQuery"@,
            crate::proto::MessageView::GraphSnapshot { nodes, reports } =>
                "GraphSnapshot { nodes: "@ + <Vec<NodeInfo>>::layout(nodes)
                    + ", reports: "@ + <Vec<GraphReport>>::layout(reports) + " }"@,
            crate::proto::MessageView::Ack { status } =>
                "Ack { status: "@ + String::layout(status) + " }"@,
            crate::proto::MessageView::TunnelOpen { hops } =>
                "TunnelOpen { hops: "@ + <Vec<RouteHop>>::layout(hops) + " }"@,
        }
    }

    fn with_quotes(&self) -> (r: Self) {
        match self {
            RadiiMessage::NodeHello { node_id, roles, listen_addrs } => {
                let q_node_id: String = node_id.with_quotes();
                let q_roles: Vec<String> = roles.with_quotes();
                let q_listen_addrs: Vec<ListenAddr> = listen_addrs.with_quotes();
                proof {
                    lemma_texts(*roles);
                    lemma_texts(q_roles);
                    lemma_listeners(*listen_addrs);
                    lemma_listeners(q_listen_addrs);
                }
                RadiiMessage::NodeHello {
                    node_id: q_node_id,
                    roles: q_roles,
                    listen_addrs: q_listen_addrs,
                }
            },
            RadiiMessage::ReachabilityProbe { from, to, sent_at_unix_ms } => {
                let q_from: String = from.with_quotes();
                let q_to: String = to.with_quotes();
                let q_sent_at_unix_ms: u64 = sent_at_unix_ms.with_quotes();
                RadiiMessage::ReachabilityProbe {
                    from: q_from,
                    to: q_to,
                    sent_at_unix_ms: q_sent_at_unix_ms,
                }
            },
            RadiiMessage::ReachabilityReport {
                from,
                target,
                protocol,
                reachable,
                rtt_ms,
                observed_addr,
            } => {
                let q_from: String = from.with_quotes();
                let q_target: String = target.with_quotes();
                let q_protocol: String = protocol.with_quotes();
                let q_reachable: bool = reachable.with_quotes();
                let q_rtt_ms: Option<u32> = rtt_ms.with_quotes();
                let q_observed_addr: Option<String> = observed_addr.with_quotes();
                proof {
                    lemma_opt(*observed_addr);
                    lemma_opt(q_observed_addr);
                }
                RadiiMessage::ReachabilityReport {
                    from: q_from,
                    target: q_target,
                    protocol: q_protocol,
                    reachable: q_reachable,
                    rtt_ms: q_rtt_ms,
                    observed_addr: q_observed_addr,
                }
            },
            RadiiMessage::FromHead { source, client_identity, message } => {
                let q_source: String = source.with_quotes();
                let q_client_identity: Option<String> = client_identity.with_quotes();
                let q_message: RelayedMessage = message.with_quotes();
                proof {
                    lemma_opt(*client_identity);
                    lemma_opt(q_client_identity);
                }
                RadiiMessage::FromHead {
                    source: q_source,
                    client_identity: q_client_identity,
                    message: q_message,
                }
            },
            RadiiMessage::GraphQuery => RadiiMessage::GraphQuery,
            RadiiMessage::GraphSnapshot { nodes, reports } => {
                let q_nodes: Vec<NodeInfo> = nodes.with_quotes();
                let q_reports: Vec<GraphReport> = reports.with_quotes();
                proof {
                    lemma_nodes(*nodes);
                    lemma_nodes(q_nodes);
                    lemma_reports(*reports);
                    lemma_reports(q_reports);
                }
                RadiiMessage::GraphSnapshot {
                    nodes: q_nodes,
                    reports: q_reports,
                }
            },
            RadiiMessage::Ack { status } => {
                let q_status: String = status.with_quotes();
                RadiiMessage::Ack {
                    status: q_status,
                }
            },
            RadiiMessage::TunnelOpen { hops } => {
                let q_hops: Vec<RouteHop> = hops.with_quotes();
                proof {
                    lemma_hops(*hops);
                    lemma_hops(q_hops);
                }
                RadiiMessage::TunnelOpen {
                    hops: q_hops,
                }
            },
        }
    }

    fn lay_out(&self) -> (r: String) {
        match self {
            RadiiMessage::NodeHello { node_id, roles, listen_addrs } => {
                proof {
                    lemma_texts(*roles);
                    lemma_listeners(*listen_addrs);
                }
                let mut r: String = "NodeHello { node_id: ".to_owned();
                r.append(node_id.lay_out().as_str());
                r.append(", roles: ");
                r.append(roles.lay_out().as_str());
                r.append(", listen_addrs: ");
                r.append(listen_addrs.lay_out().as_str());
                r.append(" }");
                r
            },
            RadiiMessage::ReachabilityProbe { from, to, sent_at_unix_ms } => {
                let mut r: String = "ReachabilityProbe { from: ".to_owned();
                r.append(from.lay_out().as_str());
                r.append(", to: ");
                r.append(to.lay_out().as_str());
                r.append(", sent_at_unix_ms: ");
                r.append(sent_at_unix_ms.lay_out().as_str());
                r.append(" }");
                r
            },
            RadiiMessage::ReachabilityReport {
                from,
                target,
                protocol,
                reachable,
                rtt_ms,
                observed_addr,
            } => {
                proof {
                    lemma_opt(*observed_addr);
                }
                let mut r: String = "ReachabilityReport { from: ".to_owned();
                r.append(from.lay_out().as_str());
                r.append(", target: ");
                r.append(target.lay_out().as_str());
                r.append(", protocol: ");
                r.append(protocol.lay_out().as_str());
                r.append(", reachable: ");
                r.append(reachable.lay_out().as_str());
                r.append(", rtt_ms: ");
                r.append(rtt_ms.lay_out().as_str());
                r.append(", observed_addr: ");
                r.append(observed_addr.lay_out().as_str());
                r.append(" }");
                r
            },
            RadiiMessage::FromHead { source, client_identity, message } => {
                proof {
                    lemma_opt(*client_identity);
                }
                let mut r: String = "FromHead { source: ".to_owned();
                r.append(source.lay_out().as_str());
                r.append(", client_identity: ");
                r.append(client_identity.lay_out().as_str());
                r.append(", message: ");
                r.append(message.lay_out().as_str());
                r.append(" }");
                r
            },
            RadiiMessage::GraphQuery => "GraphQuery".to_owned(),
            RadiiMessage::GraphSnapshot { nodes, reports } => {
                proof {
                    lemma_nodes(*nodes);
                    lemma_reports(*reports);
                }
                let mut r: String = "GraphSnapshot { nodes: ".to_owned();
                r.append(nodes.lay_out().as_str());
                r.append(", reports: ");
                r.append(reports.lay_out().as_str());
                r.append(" }");
                r
            },
            RadiiMessage::Ack { status } => {
                let mut r: String = "Ack { status: ".to_owned();
                r.append(status.lay_out().as_str());
                r.append(" }");
                r
            },
            RadiiMessage::TunnelOpen { hops } => {
                proof {
                    lemma_hops(*hops);
                }
                let mut r: String = "TunnelOpen { hops: ".to_owned();
                r.append(hops.lay_out().as_str());
                r.append(" }");
                r
            },
        }
    }
}

/// A message as an error shows it.
pub open spec fn message_text(m: crate::proto::MessageView) -> Seq<char> {
    RadiiMessage::layout(RadiiMessage::quoted(m))
}

/// A message as an error shows it.
pub fn shown(message: &RadiiMessage) -> (r: String)
    ensures
        r@ == message_text(message@),
{
    message.with_quotes().lay_out()
}

/// A list of texts is shown in brackets, each text in quotes, in order.
proof fn lemma_texts_layout(list: Seq<Seq<char>>)
    ensures
        <Vec<String>>::layout(<Vec<String>>::quoted(list)) == "["@ + crate::text::joined(
            list.map_values(|s: Seq<char>| debug_text(s)),
            ", "@,
        ) + "]"@,
{
    let quoted = <Vec<String>>::quoted(list);
    assert(quoted.map_values(|x: Seq<char>| String::layout(x)) =~= list.map_values(
        |s: Seq<char>| debug_text(s),
    ));
}

proof fn lemma_listeners_layout(list: Seq<crate::proto::ListenAddrView>)
    ensures
        <Vec<ListenAddr>>::layout(<Vec<ListenAddr>>::quoted(list)) == "["@ + crate::text::joined(
            list.map_values(
                |a: crate::proto::ListenAddrView|
                    "ListenAddr { addr: "@ + debug_text(a.addr) + ", role: "@ + debug_text(a.role)
                        + " }"@,
            ),
            ", "@,
        ) + "]"@,
{
    let quoted = <Vec<ListenAddr>>::quoted(list);
    assert(quoted.map_values(|x: crate::proto::ListenAddrView| ListenAddr::layout(x))
        =~= list.map_values(
        |a: crate::proto::ListenAddrView|
            "ListenAddr { addr: "@ + debug_text(a.addr) + ", role: "@ + debug_text(a.role)
                + " }"@,
    ));
}

/// A message is shown with its name and all of its fields, in order and under
/// their names, the texts in quotes: hellos.
pub proof fn law_hellos_as_text(
    node_id: Seq<char>,
    roles: Seq<Seq<char>>,
    listen_addrs: Seq<crate::proto::ListenAddrView>,
)
    ensures
        message_text(crate::proto::MessageView::NodeHello { node_id, roles, listen_addrs })
            == "NodeHello { node_id: "@ + debug_text(node_id) + ", roles: "@ + ("["@
            + crate::text::joined(roles.map_values(|s: Seq<char>| debug_text(s)), ", "@) + "]"@)
            + ", listen_addrs: "@ + ("["@ + crate::text::joined(
            listen_addrs.map_values(
                |a: crate::proto::ListenAddrView|
                    "ListenAddr { addr: "@ + debug_text(a.addr) + ", role: "@ + debug_text(a.role)
                        + " }"@,
            ),
            ", "@,
        ) + "]"@) + " }"@,
{
    lemma_texts_layout(roles);
    lemma_listeners_layout(listen_addrs);
}

/// Likewise probes, reports, acknowledgements and queries.
pub proof fn law_reports_as_text(
    from: Seq<char>,
    target: Seq<char>,
    protocol: Seq<char>,
    reachable: bool,
    rtt_ms: Option<u32>,
    observed_addr: Option<Seq<char>>,
    sent_at_unix_ms: u64,
    status: Seq<char>,
)
    ensures
        message_text(
            crate::proto::MessageView::ReachabilityProbe { from, to: target, sent_at_unix_ms },
        ) == "ReachabilityProbe { from: "@ + debug_text(from) + ", to: "@ + debug_text(target)
            + ", sent_at_unix_ms: "@ + crate::text::decimal_of(sent_at_unix_ms as nat) + " }"@,
        message_text(
            crate::proto::MessageView::ReachabilityReport {
                from,
                target,
                protocol,
                reachable,
                rtt_ms,
                observed_addr,
            },
        ) == "ReachabilityReport { from: "@ + debug_text(from) + ", target: "@ + debug_text(target)
            + ", protocol: "@ + debug_text(protocol) + ", reachable: "@ + (if reachable {
            "true"@
        } else {
            "false"@
        }) + ", rtt_ms: "@ + (match rtt_ms {
            Some(ms) => "Some("@ + crate::text::decimal_of(ms as nat) + ")"@,
            None => "None"@,
        }) + ", observed_addr: "@ + (match observed_addr {
            Some(addr) => "Some("@ + debug_text(addr) + ")"@,
            None => "None"@,
        }) + " }"@,
        message_text(crate::proto::MessageView::Ack { status }) == "Ack { status: "@ + debug_text(
            status,
        ) + " }"@,
        message_text(crate::proto::MessageView::GraphQuery) == "GraphQuery"@,
{
}

/// An envelope is shown with the message that it carries, which is shown as it
/// would be by itself.
pub proof fn law_envelopes_as_text(
    source: Seq<char>,
    client_identity: Option<Seq<char>>,
    message: crate::proto::RelayedView,
)
    ensures
        message_text(crate::proto::MessageView::FromHead { source, client_identity, message })
            == "FromHead { source: "@ + debug_text(source) + ", client_identity: "@ + (
        match client_identity {
            Some(id) => "Some("@ + debug_text(id) + ")"@,
            None => "None"@,
        }) + ", message: "@ + message_text(message.direct()) + " }"@,
{
}

/// A tunnel is shown with every hop.
pub proof fn law_tunnels_as_text(hops: Seq<crate::proto::HopAddrView>)
    ensures
        message_text(crate::proto::MessageView::TunnelOpen { hops }) == "TunnelOpen { hops: "@ + (
        "["@ + crate::text::joined(
            hops.map_values(
                |h: crate::proto::HopAddrView|
                    "RouteHop { node_id: "@ + debug_text(h.node_id) + ", addr: "@ + debug_text(
                        h.addr,
                    ) + " }"@,
            ),
            ", "@,
        ) + "]"@) + " }"@,
{
    let quoted = <Vec<RouteHop>>::quoted(hops);
    assert(quoted.map_values(|x: crate::proto::HopAddrView| RouteHop::layout(x))
        =~= hops.map_values(
        |h: crate::proto::HopAddrView|
            "RouteHop { node_id: "@ + debug_text(h.node_id) + ", addr: "@ + debug_text(h.addr)
                + " }"@,
    ));
}

} // verus!
