//! The initiator's half of source routing.
//!
//! Two layers of TLS check different things: the hop-local one that the first
//! relay is who it should be, the end-to-end one that the target is.

use crate::proto::{RadiiMessage, RouteHop};
use crate::resolve::ResolvedRoute;
use crate::shown::shown;
use crate::text::same;
use vstd::prelude::*;
use vstd::string::*;

verus! {

/// What it takes to open a chain.
#[derive(Debug)]
pub struct ChainPlan {
    /// Dialed, and required to be `first_id` where the dial uses TLS.
    pub first_addr: String,
    pub first_id: String,
    /// Sent to the first hop.
    pub opening: RadiiMessage,
    /// Named in the end-to-end session, whose peer must be `target_id`.
    pub target_addr: String,
    pub target_id: String,
}

/// The hops as the wire carries them.
pub open spec fn wire_hops(hops: Seq<crate::resolve::HopView>) -> Seq<crate::proto::HopAddrView> {
    hops.map_values(
        |h: crate::resolve::HopView|
            crate::proto::HopAddrView { node_id: h.node_id, addr: h.addr },
    )
}

/// How the chain along `route` is opened; nothing for a route without hops.
pub fn plan_chain(route: &ResolvedRoute) -> (r: Option<ChainPlan>)
    ensures
        r is None <==> route@.hops.len() == 0,
        r matches Some(plan) ==> {
            &&& plan.first_addr@ == route@.hops[0].addr
            &&& plan.first_id@ == route@.hops[0].node_id
            &&& plan.target_addr@ == route@.hops.last().addr
            &&& plan.target_id@ == route@.hops.last().node_id
            &&& plan.opening@ == (crate::proto::MessageView::TunnelOpen {
                hops: wire_hops(route@.hops),
            })
        },
{
    let n: usize = route.hops.len();
    if n == 0 {
        return None;
    }
    let mut hops: Vec<RouteHop> = Vec::new();
    let mut i: usize = 0;
    while i < n
        invariant
            i <= n,
            n == route.hops@.len(),
            hops@.len() == i,
            forall|j: int|
                0 <= j < i ==> (#[trigger] hops@[j]).node_id@ == route.hops@[j].node_id@
                    && hops@[j].addr@ == route.hops@[j].addr@,
        decreases n - i,
    {
        hops.push(
            RouteHop {
                node_id: route.hops[i].node_id.0.clone(),
                addr: route.hops[i].addr.clone(),
            },
        );
        i += 1;
    }
    assert(hops@.map_values(|h: RouteHop| h@) =~= wire_hops(route@.hops));
    Some(
        ChainPlan {
            first_addr: route.hops[0].addr.clone(),
            first_id: route.hops[0].node_id.0.clone(),
            opening: RadiiMessage::TunnelOpen { hops },
            target_addr: route.hops[n - 1].addr.clone(),
            target_id: route.hops[n - 1].node_id.0.clone(),
        },
    )
}

/// Why a chain did not open.
#[derive(Debug)]
pub enum ChainRefusal {
    /// The route has no hops.
    NoHops,
    /// A hop said so.
    Refused { status: String },
    /// The first hop answered with something else than an acknowledgement,
    /// here as text.
    NotAnAck { reply: String },
}

impl ChainRefusal {
    pub open spec fn words(self) -> Seq<char> {
        match self {
            ChainRefusal::NoHops => "route has no hops"@,
            ChainRefusal::Refused { status } => "chain refused: "@ + status@,
            ChainRefusal::NotAnAck { reply } => "expected an ack opening a chain, got "@ + reply@,
        }
    }

    pub fn describe(&self) -> (r: String)
        ensures
            r@ == self.words(),
    {
        match self {
            ChainRefusal::NoHops => "route has no hops".to_owned(),
            ChainRefusal::Refused { status } => {
                let mut r: String = "chain refused: ".to_owned();
                r.append(status.as_str());
                r
            },
            ChainRefusal::NotAnAck { reply } => {
                let mut r: String = "expected an ack opening a chain, got ".to_owned();
                r.append(reply.as_str());
                r
            },
        }
    }
}

/// Whether the first hop's answer opened the chain: only the one status does.
pub fn opened(reply: &RadiiMessage) -> (r: Result<(), ChainRefusal>)
    ensures
        match r {
            Ok(()) => reply@ == (crate::proto::MessageView::Ack { status: "tunnel_ready"@ }),
            Err(ChainRefusal::Refused { status }) => reply@ == (crate::proto::MessageView::Ack {
                status: status@,
            }) && status@ != "tunnel_ready"@,
            Err(ChainRefusal::NotAnAck { reply: text }) => !(reply@ is Ack) && text@
                == crate::shown::message_text(reply@),
            Err(ChainRefusal::NoHops) => false,
        },
{
    match reply {
        RadiiMessage::Ack { status } => {
            if same(status.as_str(), "tunnel_ready") {
                Ok(())
            } else {
                Err(ChainRefusal::Refused { status: status.clone() })
            }
        },
        _ => Err(ChainRefusal::NotAnAck { reply: shown(reply) }),
    }
}

/// A chain opens exactly when the last relay before the initiator passed on
/// readiness: what a relay does not recognise never opens one.
pub proof fn law_only_readiness_opens(m: crate::proto::MessageView)
    ensures
        crate::relay::passed_on(m) == "tunnel_ready"@ <==> m
            == (crate::proto::MessageView::Ack { status: "tunnel_ready"@ }),
{
    let ready = crate::relay::TunnelStatus::Ready;
    assert(crate::relay::known_status(ready.text()));
    crate::relay::law_statuses_are_distinct(ready, crate::relay::TunnelStatus::Unrecognised);
}

/// A planned route that every hop can be dialed on opens as a chain: each relay
/// on it finds itself first, no node twice and a path within its limit, the
/// source is none of the hops, and the last hop is the target.
pub proof fn law_planned_chains_pass_every_relay<S: crate::routing::RouteScorer>(
    scorer: S,
    links: Seq<crate::routing::LinkView>,
    request: crate::routing::RequestView,
    planned: crate::routing::RouteCandidate,
    book: Map<Seq<char>, Vec<(String, String)>>,
    hop_role: Seq<char>,
    target_role: Seq<char>,
    hops: Seq<RouteHop>,
    k: int,
    max_hops: nat,
)
    requires
        crate::routing::admitted(scorer, links, request, planned),
        crate::resolve::resolution(book, planned, Some(hop_role), target_role) matches Some(route)
            && hops.map_values(|h: RouteHop| h@) == wire_hops(route.hops),
        0 <= k < hops.len() <= max_hops,
    ensures
        crate::relay::path_fault(hops.skip(k), hops[k].node_id@, max_hops) is None,
        hops[k].node_id@ != request.source,
        hops.last().node_id@ == request.target,
        hops.len() <= crate::routing::hop_budget(request.max_hops),
{
    let route = crate::resolve::resolution(book, planned, Some(hop_role), target_role)->0;
    let used = choose|used: Seq<int>|
        crate::routing::describes(scorer, links, request, planned, used);
    let names = planned.names();
    let way = names.drop_first();
    assert(route.hops == crate::resolve::dialed(book, way, Some(hop_role), target_role));
    assert(hops.map_values(|h: RouteHop| h@).len() == way.len());
    assert forall|i: int| 0 <= i < hops.len() implies (#[trigger] hops[i]).node_id@ == names[i
        + 1] by {
        assert(hops.map_values(|h: RouteHop| h@)[i] == wire_hops(route.hops)[i]);
        assert(route.hops[i].node_id == way[i]);
    }
    let rest = hops.skip(k);
    let ids = crate::relay::hop_ids(rest);
    assert forall|a: int, b: int| 0 <= a < ids.len() && 0 <= b < ids.len() && a != b implies ids[a]
        != ids[b] by {
        assert(ids[a] == hops[k + a].node_id@);
        assert(ids[b] == hops[k + b].node_id@);
        assert(names[k + a + 1] != names[k + b + 1]);
    }
    assert(rest[0] == hops[k]);
    assert(names[k + 1] != names[0]);
}

/// The same of every route that is offered for a list of targets.
pub proof fn law_offered_chains_pass_every_relay(
    links: Seq<crate::routing::LinkView>,
    book: Map<Seq<char>, Vec<(String, String)>>,
    source: Seq<char>,
    targets: Seq<crate::routing::NodeId>,
    allowed: Seq<crate::routing::ProtocolId>,
    max_hops: nat,
    max_candidates: nat,
    hop_role: Seq<char>,
    target_role: Seq<char>,
    routes: Seq<crate::resolve::RouteView>,
    i: int,
    hops: Seq<RouteHop>,
    k: int,
    limit: nat,
)
    requires
        crate::resolve::offered(
            links,
            book,
            source,
            targets,
            allowed,
            max_hops,
            max_candidates,
            Some(hop_role),
            target_role,
            routes,
        ),
        0 <= i < routes.len(),
        hops.map_values(|h: RouteHop| h@) == wire_hops(routes[i].hops),
        0 <= k < hops.len() <= limit,
    ensures
        crate::relay::path_fault(hops.skip(k), hops[k].node_id@, limit) is None,
        hops[k].node_id@ != source,
        exists|t: int| 0 <= t < targets.len() && (#[trigger] targets[t])@ == hops.last().node_id@,
        hops.len() <= crate::routing::hop_budget(max_hops),
{
    let plans = choose|plans: Seq<Seq<crate::routing::RouteCandidate>>| #[trigger]
        crate::resolve::plans_for(
            links,
            source,
            targets,
            allowed,
            max_hops,
            max_candidates,
            plans,
        ) && routes == crate::resolve::first_of(
            crate::resolve::merged(book, plans, Some(hop_role), target_role),
            max_candidates,
        );
    let all = crate::resolve::merged(book, plans, Some(hop_role), target_role);
    assert(all[i] == routes[i]);
    let (t, j) = crate::resolve::law_candidates_are_planned(
        book,
        plans,
        Some(hop_role),
        target_role,
        routes[i],
    );
    let request = crate::resolve::request_for(source, targets[t]@, allowed, max_hops);
    assert(crate::routing::ranking(
        crate::routing::DefaultScorer,
        links,
        request,
        max_candidates,
        plans[t],
    ));
    law_planned_chains_pass_every_relay(
        crate::routing::DefaultScorer,
        links,
        request,
        plans[t][j],
        book,
        hop_role,
        target_role,
        hops,
        k,
        limit,
    );
    assert(targets[t]@ == hops.last().node_id@);
}

/// What is sent to open a chain names every hop of the route, in order, with
/// its address.
pub proof fn law_openings_name_every_hop(route: ResolvedRoute, hops: Seq<RouteHop>)
    requires
        hops.map_values(|h: RouteHop| h@) == wire_hops(route@.hops),
    ensures
        hops.len() == route.hops@.len(),
        forall|i: int|
            0 <= i < hops.len() ==> (#[trigger] hops[i]).node_id@ == route.hops@[i].node_id.0@
                && hops[i].addr@ == route.hops@[i].addr@,
{
    let sent = hops.map_values(|h: RouteHop| h@);
    let wanted = wire_hops(route@.hops);
    assert(sent.len() == wanted.len());
    assert forall|i: int| 0 <= i < hops.len() implies (#[trigger] hops[i]).node_id@
        == route.hops@[i].node_id.0@ && hops[i].addr@ == route.hops@[i].addr@ by {
        assert(sent[i] == hops[i]@);
        assert(sent[i] == wanted[i]);
        assert(route@.hops[i] == route.hops@[i]@);
    }
}

/// What is told of a chain that did not open holds what the hop said.
pub proof fn law_refusals_are_told(status: String, reply: String)
    ensures
        ChainRefusal::NoHops.words() == "route has no hops"@,
        (ChainRefusal::Refused { status }).words() == "chain refused: "@ + status@,
        (ChainRefusal::NotAnAck { reply }).words() == "expected an ack opening a chain, got "@
            + reply@,
{
}

} // verus!
