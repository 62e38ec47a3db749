//! A Crawl's answer as the planner sees it.

use crate::proto::{GraphReport, ListenAddr, NodeInfo, RadiiMessage};
use crate::resolve::{resolve_candidates, AddressBook, ResolvedRoute};
use crate::routing::{GraphSnapshot, Link, NodeId, ProtocolId, RoleId};
use crate::shown::shown;
use crate::table::Table;
use vstd::prelude::*;
use vstd::string::*;

verus! {

/// The link that a report speaks of.
pub open spec fn link_of(r: crate::proto::GraphReportView) -> crate::routing::LinkView {
    crate::routing::LinkView {
        from: r.from,
        to: r.target,
        protocol: r.protocol,
        reachable: r.reachable,
        latency_ms: r.rtt_ms,
    }
}

/// The links that the reports speak of.
pub open spec fn links_of(reports: Seq<GraphReport>) -> Seq<crate::routing::LinkView> {
    reports.map_values(|r: GraphReport| link_of(r@))
}

/// The planner's graph of a list of reports, up to the caps.
pub fn to_snapshot(reports: &[GraphReport]) -> (r: GraphSnapshot)
    ensures
        r@ == crate::routing::SnapshotView::empty().offered_all(links_of(reports@)),
        r@.well_formed(),
{
    let ghost all = links_of(reports@);
    let mut snapshot: GraphSnapshot = GraphSnapshot::new();
    let mut i: usize = 0;
    assert(all.take(0) =~= Seq::<crate::routing::LinkView>::empty());
    while i < reports.len()
        invariant
            i <= reports@.len(),
            all == links_of(reports@),
            snapshot@ == crate::routing::SnapshotView::empty().offered_all(all.take(i as int)),
            snapshot@.dropped <= i,
        decreases reports@.len() - i,
    {
        let report: &GraphReport = &reports[i];
        let link: Link = Link {
            from: NodeId(report.from.clone()),
            to: NodeId(report.target.clone()),
            protocol: ProtocolId::new(report.protocol.as_str()),
            reachable: report.reachable,
            latency_ms: report.rtt_ms,
        };
        assert(all.take(i + 1).drop_last() =~= all.take(i as int));
        assert(all.take(i + 1).last() == link@);
        let _ = snapshot.add_link(link);
        i += 1;
    }
    assert(all.take(all.len() as int) =~= all);
    proof {
        crate::routing::law_caps_hold(crate::routing::SnapshotView::empty(), all);
    }
    snapshot
}

/// What a list of addresses and roles says.
pub open spec fn entries_view(entries: Seq<(String, String)>) -> Seq<(Seq<char>, Seq<char>)> {
    entries.map_values(|e: (String, String)| (e.0@, e.1@))
}

/// What an address book says.
pub open spec fn book_view(book: Map<Seq<char>, Vec<(String, String)>>) -> Map<
    Seq<char>,
    Seq<(Seq<char>, Seq<char>)>,
> {
    book.map_values(|v: Vec<(String, String)>| entries_view(v@))
}

/// The addresses and roles of a node.
pub open spec fn listed_at(n: crate::proto::NodeInfoView) -> Seq<(Seq<char>, Seq<char>)> {
    n.listen_addrs.map_values(|a: crate::proto::ListenAddrView| (a.addr, a.role))
}

/// The addresses by node id. Of two nodes with one id the later counts.
pub open spec fn registry(nodes: Seq<crate::proto::NodeInfoView>) -> Map<
    Seq<char>,
    Seq<(Seq<char>, Seq<char>)>,
>
    decreases nodes.len(),
{
    if nodes.len() == 0 {
        Map::empty()
    } else {
        registry(nodes.drop_last()).insert(nodes.last().node_id, listed_at(nodes.last()))
    }
}

/// The addresses and roles of a list of listeners.
fn entries_of(listeners: &Vec<ListenAddr>) -> (r: Vec<(String, String)>)
    ensures
        entries_view(r@) == crate::proto::listen_views(listeners@).map_values(
            |a: crate::proto::ListenAddrView| (a.addr, a.role),
        ),
{
    let mut r: Vec<(String, String)> = Vec::new();
    let mut i: usize = 0;
    while i < listeners.len()
        invariant
            i <= listeners@.len(),
            r@.len() == i,
            forall|j: int|
                0 <= j < i ==> (#[trigger] r@[j]).0@ == listeners@[j].addr@ && r@[j].1@
                    == listeners@[j].role@,
        decreases listeners@.len() - i,
    {
        r.push((listeners[i].addr.clone(), listeners[i].role.clone()));
        i += 1;
    }
    assert(entries_view(r@) =~= crate::proto::listen_views(listeners@).map_values(
        |a: crate::proto::ListenAddrView| (a.addr, a.role),
    ));
    r
}

/// The addresses that the nodes advertise.
pub fn address_book(nodes: &[NodeInfo]) -> (r: AddressBook)
    ensures
        book_view(r@) == registry(nodes@.map_values(|n: NodeInfo| n@)),
{
    let ghost all = nodes@.map_values(|n: NodeInfo| n@);
    let mut book: AddressBook = Table::new();
    let mut i: usize = 0;
    assert(all.take(0) =~= Seq::<crate::proto::NodeInfoView>::empty());
    assert(book_view(book@) =~= Map::<Seq<char>, Seq<(Seq<char>, Seq<char>)>>::empty());
    while i < nodes.len()
        invariant
            i <= nodes@.len(),
            all == nodes@.map_values(|n: NodeInfo| n@),
            book_view(book@) == registry(all.take(i as int)),
        decreases nodes@.len() - i,
    {
        let ghost before = book@;
        let entries: Vec<(String, String)> = entries_of(&nodes[i].listen_addrs);
        book.insert(nodes[i].node_id.clone(), entries);
        proof {
            assert(all.take(i + 1).drop_last() =~= all.take(i as int));
            assert(all.take(i + 1).last() == nodes@[i as int]@);
            assert(book_view(book@) =~= book_view(before).insert(
                nodes@[i as int].node_id@,
                entries_view(entries@),
            ));
        }
        i += 1;
    }
    assert(all.take(all.len() as int) =~= all);
    book
}

/// What a Crawl last said: its graph, and where its nodes listen.
pub struct GraphState {
    pub snapshot: GraphSnapshot,
    pub listen_addrs: AddressBook,
}

impl Default for GraphState {
    fn default() -> (r: Self)
        ensures
            r.snapshot@ == crate::routing::SnapshotView::empty(),
            r.listen_addrs@ == Map::<Seq<char>, Vec<(String, String)>>::empty(),
    {
        GraphState { snapshot: GraphSnapshot::new(), listen_addrs: Table::new() }
    }
}

/// A graph query was answered with something else than a snapshot.
#[derive(Debug, PartialEq, Eq)]
pub struct UnexpectedReply {
    /// The answer as text.
    pub reply: String,
}

impl UnexpectedReply {
    /// The fault in words.
    pub open spec fn words(&self) -> Seq<char> {
        "unexpected reply to graph query: "@ + self.reply@
    }

    /// The fault in words.
    pub fn describe(&self) -> (r: String)
        ensures
            r@ == self.words(),
    {
        let mut r: String = "unexpected reply to graph query: ".to_owned();
        r.append(self.reply.as_str());
        r
    }
}

/// Reads the answer to a graph query. The refusal of a message of another kind
/// shows it.
pub fn snapshot_reply(reply: RadiiMessage) -> (r: Result<
    (Vec<NodeInfo>, Vec<GraphReport>),
    UnexpectedReply,
>)
    ensures
        match r {
            Ok((nodes, reports)) => reply == (RadiiMessage::GraphSnapshot { nodes, reports }),
            Err(e) => !(reply is GraphSnapshot) && e.reply@ == crate::shown::message_text(reply@),
        },
{
    match reply {
        RadiiMessage::GraphSnapshot { nodes, reports } => Ok((nodes, reports)),
        other => Err(UnexpectedReply { reply: shown(&other) }),
    }
}

/// What the answer to a graph query says.
pub fn learned(nodes: &[NodeInfo], reports: &[GraphReport]) -> (r: GraphState)
    ensures
        r.snapshot@ == crate::routing::SnapshotView::empty().offered_all(links_of(reports@)),
        r.snapshot@.well_formed(),
        book_view(r.listen_addrs@) == registry(nodes@.map_values(|n: NodeInfo| n@)),
{
    GraphState { snapshot: to_snapshot(reports), listen_addrs: address_book(nodes) }
}

/// The routes of a Fetch: every hop is dialed at its relay listener, the
/// target too.
pub fn plan_from(
    snapshot: &GraphSnapshot,
    listen_addrs: &AddressBook,
    source: &NodeId,
    targets: &[NodeId],
    allowed_protocols: &[ProtocolId],
    max_hops: usize,
    max_candidates: usize,
) -> (r: Vec<ResolvedRoute>)
    ensures
        crate::resolve::offered(
            snapshot@.links,
            listen_addrs@,
            source@,
            targets@,
            allowed_protocols@,
            max_hops as nat,
            max_candidates as nat,
            Some("relay"@),
            "relay"@,
            crate::resolve::route_views(r@),
        ),
        crate::resolve::ascending(crate::resolve::route_views(r@)),
        r@.len() <= max_candidates,
        forall|i: int| 0 <= i < r@.len() ==> (#[trigger] r@[i]).hops@.len() > 0,
{
    let role: RoleId = RoleId::new(RoleId::RELAY);
    resolve_candidates(
        snapshot,
        listen_addrs,
        source,
        targets,
        allowed_protocols,
        max_hops,
        max_candidates,
        Some(&role),
        &role,
    )
}

/// The backends of a Head: only the target of a route is dialed, at its relay
/// listener, which hands the bytes on to the target's own upstream.
pub fn plan_backends(
    state: &GraphState,
    source: &NodeId,
    targets: &[NodeId],
    allowed_protocols: &[ProtocolId],
    max_hops: usize,
    limit: usize,
) -> (r: Vec<ResolvedRoute>)
    ensures
        crate::resolve::offered(
            state.snapshot@.links,
            state.listen_addrs@,
            source@,
            targets@,
            allowed_protocols@,
            max_hops as nat,
            limit as nat,
            None,
            "relay"@,
            crate::resolve::route_views(r@),
        ),
        crate::resolve::ascending(crate::resolve::route_views(r@)),
        r@.len() <= limit,
        forall|i: int| 0 <= i < r@.len() ==> (#[trigger] r@[i]).hops@.len() > 0,
{
    resolve_candidates(
        &state.snapshot,
        &state.listen_addrs,
        source,
        targets,
        allowed_protocols,
        max_hops,
        limit,
        None,
        &RoleId::new(RoleId::RELAY),
    )
}

/// The node ids of a list of names.
pub fn node_ids(names: &Vec<String>) -> (r: Vec<NodeId>)
    ensures
        r@.map_values(|n: NodeId| n@) == crate::proto::texts(names@),
{
    let mut r: Vec<NodeId> = Vec::new();
    let mut i: usize = 0;
    while i < names.len()
        invariant
            i <= names@.len(),
            r@.len() == i,
            forall|j: int| 0 <= j < i ==> (#[trigger] r@[j])@ == names@[j]@,
        decreases names@.len() - i,
    {
        r.push(NodeId(names[i].clone()));
        i += 1;
    }
    assert(r@.map_values(|n: NodeId| n@) =~= crate::proto::texts(names@));
    r
}

/// The protocol ids of a list of names.
pub fn protocol_ids(names: &Vec<String>) -> (r: Vec<ProtocolId>)
    ensures
        r@.map_values(|p: ProtocolId| p@) == crate::proto::texts(names@),
{
    let mut r: Vec<ProtocolId> = Vec::new();
    let mut i: usize = 0;
    while i < names.len()
        invariant
            i <= names@.len(),
            r@.len() == i,
            forall|j: int| 0 <= j < i ==> (#[trigger] r@[j])@ == names@[j]@,
        decreases names@.len() - i,
    {
        r.push(ProtocolId::new(names[i].as_str()));
        i += 1;
    }
    assert(r@.map_values(|p: ProtocolId| p@) =~= crate::proto::texts(names@));
    r
}

/// Where no id occurs twice, the address book holds every node of a snapshot,
/// with all that it advertises.
pub proof fn law_every_node_is_in_the_book(nodes: Seq<crate::proto::NodeInfoView>, i: int)
    requires
        0 <= i < nodes.len(),
        nodes.map_values(|n: crate::proto::NodeInfoView| n.node_id).no_duplicates(),
    ensures
        registry(nodes).dom().contains(nodes[i].node_id),
        registry(nodes)[nodes[i].node_id] == listed_at(nodes[i]),
    decreases nodes.len(),
{
    let ids = nodes.map_values(|n: crate::proto::NodeInfoView| n.node_id);
    if i < nodes.len() - 1 {
        let front = nodes.drop_last();
        assert(front.map_values(|n: crate::proto::NodeInfoView| n.node_id) =~= ids.drop_last());
        law_every_node_is_in_the_book(front, i);
        assert(ids[i] != ids[nodes.len() - 1]);
    }
}

/// The planner's graph of reports below the caps holds a link for each report,
/// in order: from the reporter to its target, with the protocol, the
/// reachability and the round trip that were reported. Nothing is dropped, and
/// the nodes are the ends of the reports.
pub proof fn law_every_report_is_a_link(
    graph: GraphSnapshot,
    reports: Seq<GraphReport>,
    ends: Set<Seq<char>>,
)
    requires
        graph@ == crate::routing::SnapshotView::empty().offered_all(links_of(reports)),
        graph@.well_formed(),
        reports.len() <= 32_768,
        ends.finite(),
        ends.len() <= 4_096,
        forall|i: int|
            0 <= i < reports.len() ==> ends.contains((#[trigger] reports[i]).from@)
                && ends.contains(reports[i].target@),
    ensures
        graph.dropped_links@ == 0,
        graph.links@.len() == reports.len(),
        forall|i: int|
            0 <= i < reports.len() ==> {
                &&& (#[trigger] graph.links@[i]).from.0@ == reports[i].from@
                &&& graph.links@[i].to.0@ == reports[i].target@
                &&& graph.links@[i].protocol.0@ == reports[i].protocol@
                &&& graph.links@[i].reachable == reports[i].reachable
                &&& graph.links@[i].latency_ms == reports[i].rtt_ms
            },
        forall|i: int|
            0 <= i < reports.len() ==> graph.nodes@.contains((#[trigger] reports[i]).from@)
                && graph.nodes@.contains(reports[i].target@),
        graph.nodes@.subset_of(ends),
{
    let all = links_of(reports);
    assert forall|i: int| 0 <= i < all.len() implies ends.contains((#[trigger] all[i]).from)
        && ends.contains(all[i].to) by {
        assert(all[i] == link_of(reports[i]@));
    }
    crate::routing::lemma_all_fit(all, ends);
    assert(graph@.links.len() == graph.links@.len());
    assert forall|i: int| 0 <= i < reports.len() implies {
        &&& (#[trigger] graph.links@[i]).from.0@ == reports[i].from@
        &&& graph.links@[i].to.0@ == reports[i].target@
        &&& graph.links@[i].protocol.0@ == reports[i].protocol@
        &&& graph.links@[i].reachable == reports[i].reachable
        &&& graph.links@[i].latency_ms == reports[i].rtt_ms
    } by {
        assert(graph.links@.map_values(|l: Link| l@)[i] == graph.links@[i]@);
        assert(all[i] == link_of(reports[i]@));
    }
    assert forall|i: int| 0 <= i < reports.len() implies graph.nodes@.contains(
        (#[trigger] reports[i]).from@,
    ) && graph.nodes@.contains(reports[i].target@) by {
        assert(all[i] == link_of(reports[i]@));
        assert(graph@.links[i] == all[i]);
    }
}

/// However many reports there are, no link is made up: each is one of the
/// reports, field by field, and those left out are counted.
pub proof fn law_no_link_is_made_up(graph: GraphSnapshot, reports: Seq<GraphReport>, i: int) -> (k:
    int)
    requires
        graph@ == crate::routing::SnapshotView::empty().offered_all(links_of(reports)),
        0 <= i < graph.links@.len(),
    ensures
        graph.links@.len() + graph.dropped_links@ == reports.len(),
        0 <= k < reports.len(),
        graph.links@[i].from.0@ == reports[k].from@,
        graph.links@[i].to.0@ == reports[k].target@,
        graph.links@[i].protocol.0@ == reports[k].protocol@,
        graph.links@[i].reachable == reports[k].reachable,
        graph.links@[i].latency_ms == reports[k].rtt_ms,
{
    let all = links_of(reports);
    let start = crate::routing::SnapshotView::empty();
    crate::routing::law_caps_hold(start, all);
    assert(graph@.links.len() == graph.links@.len());
    assert(graph.links@.map_values(|l: Link| l@)[i] == graph.links@[i]@);
    let k = lemma_link_origin(all, i);
    assert(all[k] == link_of(reports[k]@));
    k
}

proof fn lemma_link_origin(all: Seq<crate::routing::LinkView>, i: int) -> (k: int)
    requires
        0 <= i < crate::routing::SnapshotView::empty().offered_all(all).links.len(),
    ensures
        0 <= k < all.len(),
        crate::routing::SnapshotView::empty().offered_all(all).links[i] == all[k],
    decreases all.len(),
{
    let start = crate::routing::SnapshotView::empty();
    if all.len() == 0 {
        0
    } else {
        let before = start.offered_all(all.drop_last());
        if i < before.links.len() {
            let k = lemma_link_origin(all.drop_last(), i);
            assert(all.drop_last()[k] == all[k]);
            k
        } else {
            all.len() - 1
        }
    }
}

/// The address book holds under an id what its last bearer advertises, listener
/// for listener, and nobody else.
pub proof fn law_the_book_says_what_nodes_advertise(
    book: AddressBook,
    nodes: Seq<NodeInfo>,
    i: int,
    k: Seq<char>,
)
    requires
        book_view(book@) == registry(nodes.map_values(|n: NodeInfo| n@)),
        0 <= i < nodes.len(),
        forall|j: int| i < j < nodes.len() ==> (#[trigger] nodes[j]).node_id@ != nodes[i].node_id@,
    ensures
        book@.dom().contains(nodes[i].node_id@),
        book@[nodes[i].node_id@]@.len() == nodes[i].listen_addrs@.len(),
        forall|a: int|
            0 <= a < nodes[i].listen_addrs@.len() ==> {
                &&& (#[trigger] book@[nodes[i].node_id@]@[a]).0@ == nodes[i].listen_addrs@[a].addr@
                &&& book@[nodes[i].node_id@]@[a].1@ == nodes[i].listen_addrs@[a].role@
            },
        book@.dom().contains(k) ==> exists|j: int|
            0 <= j < nodes.len() && (#[trigger] nodes[j]).node_id@ == k,
{
    let all = nodes.map_values(|n: NodeInfo| n@);
    assert forall|j: int| i < j < all.len() implies (#[trigger] all[j]).node_id
        != all[i].node_id by {
        assert(all[j] == nodes[j]@ && all[i] == nodes[i]@);
    }
    lemma_last_bearer(all, i, k);
    let id = nodes[i].node_id@;
    assert(all[i] == nodes[i]@);
    assert(book_view(book@).dom().contains(id));
    assert(book_view(book@)[id] == entries_view(book@[id]@));
    let want = listed_at(nodes[i]@);
    let got = entries_view(book@[id]@);
    assert(got == want);
    assert(got.len() == book@[id]@.len());
    assert(want.len() == nodes[i].listen_addrs@.len());
    assert forall|a: int| 0 <= a < nodes[i].listen_addrs@.len() implies {
        &&& (#[trigger] book@[id]@[a]).0@ == nodes[i].listen_addrs@[a].addr@
        &&& book@[id]@[a].1@ == nodes[i].listen_addrs@[a].role@
    } by {
        assert(got[a] == (book@[id]@[a].0@, book@[id]@[a].1@));
        assert(crate::proto::listen_views(nodes[i].listen_addrs@)[a]
            == nodes[i].listen_addrs@[a]@);
        assert(want[a] == (nodes[i].listen_addrs@[a].addr@, nodes[i].listen_addrs@[a].role@));
    }
    if book@.dom().contains(k) {
        assert(book_view(book@).dom().contains(k));
        let j = choose|j: int| 0 <= j < all.len() && (#[trigger] all[j]).node_id == k;
        assert(all[j] == nodes[j]@);
        assert(nodes[j].node_id@ == k);
    }
}

proof fn lemma_last_bearer(nodes: Seq<crate::proto::NodeInfoView>, i: int, k: Seq<char>)
    requires
        0 <= i < nodes.len(),
        forall|j: int| i < j < nodes.len() ==> (#[trigger] nodes[j]).node_id != nodes[i].node_id,
    ensures
        registry(nodes).dom().contains(nodes[i].node_id),
        registry(nodes)[nodes[i].node_id] == listed_at(nodes[i]),
        registry(nodes).dom().contains(k) ==> exists|j: int|
            0 <= j < nodes.len() && (#[trigger] nodes[j]).node_id == k,
    decreases nodes.len(),
{
    let front = nodes.drop_last();
    lemma_known_bearer(nodes, k);
    if i < nodes.len() - 1 {
        assert forall|j: int| i < j < front.len() implies (#[trigger] front[j]).node_id
            != front[i].node_id by {
            assert(front[j] == nodes[j]);
        }
        lemma_last_bearer(front, i, k);
        assert(nodes[nodes.len() - 1].node_id != nodes[i].node_id);
    }
}

proof fn lemma_known_bearer(nodes: Seq<crate::proto::NodeInfoView>, k: Seq<char>)
    ensures
        registry(nodes).dom().contains(k) ==> exists|j: int|
            0 <= j < nodes.len() && (#[trigger] nodes[j]).node_id == k,
    decreases nodes.len(),
{
    if nodes.len() > 0 {
        let front = nodes.drop_last();
        lemma_known_bearer(front, k);
        if registry(nodes).dom().contains(k) {
            if k == nodes.last().node_id {
                assert(nodes[nodes.len() - 1].node_id == k);
            } else {
                let j = choose|j: int| 0 <= j < front.len() && (#[trigger] front[j]).node_id == k;
                assert(nodes[j].node_id == k);
            }
        }
    }
}

/// A Crawl's answer is what routes are made of: a reachable report from the
/// source to a target that listens as a relay gives a backend, which costs no
/// more than that link.
pub proof fn law_reported_backends_are_found(
    state: GraphState,
    nodes: Seq<NodeInfo>,
    reports: Seq<GraphReport>,
    ends: Set<Seq<char>>,
    source: NodeId,
    targets: Seq<NodeId>,
    allowed: Seq<ProtocolId>,
    max_hops: usize,
    limit: usize,
    r: Seq<ResolvedRoute>,
    t: int,
    n: int,
    a: int,
    i: int,
)
    requires
        state.snapshot@ == crate::routing::SnapshotView::empty().offered_all(links_of(reports)),
        state.snapshot@.well_formed(),
        book_view(state.listen_addrs@) == registry(nodes.map_values(|n: NodeInfo| n@)),
        crate::resolve::offered(
            state.snapshot@.links,
            state.listen_addrs@,
            source@,
            targets,
            allowed,
            max_hops as nat,
            limit as nat,
            None,
            "relay"@,
            crate::resolve::route_views(r),
        ),
        reports.len() <= 32_768,
        ends.finite(),
        ends.len() <= 4_096,
        forall|i: int|
            0 <= i < reports.len() ==> ends.contains((#[trigger] reports[i]).from@)
                && ends.contains(reports[i].target@),
        max_hops > 0,
        limit > 0,
        0 <= t < targets.len(),
        targets[t].0@ != source.0@,
        0 <= n < nodes.len(),
        nodes[n].node_id@ == targets[t].0@,
        forall|j: int| n < j < nodes.len() ==> (#[trigger] nodes[j]).node_id@ != nodes[n].node_id@,
        0 <= a < nodes[n].listen_addrs@.len(),
        nodes[n].listen_addrs@[a].role@ == "relay"@,
        0 <= i < reports.len(),
        reports[i].from@ == source.0@,
        reports[i].target@ == targets[t].0@,
        reports[i].reachable,
        allowed.len() == 0 || exists|p: int|
            0 <= p < allowed.len() && (#[trigger] allowed[p]).0@ == reports[i].protocol@,
    ensures
        r.len() > 0,
        reports[i].rtt_ms matches Some(ms) ==> r[0].score <= ms + 10,
        reports[i].rtt_ms is None ==> r[0].score <= 1010,
{
    let graph = state.snapshot;
    law_every_report_is_a_link(graph, reports, ends);
    law_the_book_says_what_nodes_advertise(state.listen_addrs, nodes, n, targets[t].0@);
    crate::resolve::law_the_first_address_counts(
        state.listen_addrs@,
        targets[t].0@,
        "relay"@,
    );
    assert(state.listen_addrs@[targets[t].0@]@[a].1@ == "relay"@);
    assert(crate::resolve::lookup(state.listen_addrs@, targets[t].0@, "relay"@) is Some);
    let hops = seq![source.0@, targets[t].0@];
    let used = seq![i];
    let k = used[0];
    assert(graph.links@[k].from.0@ == hops[0] && graph.links@[k].to.0@ == hops[1]);
    crate::resolve::lemma_best_way(
        graph,
        state.listen_addrs@,
        source,
        targets,
        allowed,
        max_hops,
        limit,
        None,
        "relay"@,
        r,
        t,
        hops,
        used,
    );
    assert(used.drop_last() =~= Seq::<int>::empty());
    reveal_with_fuel(Seq::fold_left, 2);
    crate::routing::law_default_costs(graph.links@[i], graph.links@[i]);
}

/// One report more offers one link more, and nothing else: what became of the
/// others does not change.
pub proof fn law_one_report_more(
    before: GraphSnapshot,
    after: GraphSnapshot,
    reports: Seq<GraphReport>,
    report: GraphReport,
    link: crate::routing::Link,
)
    requires
        before@ == crate::routing::SnapshotView::empty().offered_all(links_of(reports)),
        after@ == crate::routing::SnapshotView::empty().offered_all(
            links_of(reports.push(report)),
        ),
        link.from.0@ == report.from@,
        link.to.0@ == report.target@,
        link.protocol.0@ == report.protocol@,
        link.reachable == report.reachable,
        link.latency_ms == report.rtt_ms,
    ensures
        after@ == before@.offered(link@),
{
    let all = links_of(reports.push(report));
    assert(all.drop_last() =~= links_of(reports));
    assert(all.last() == link_of(report@));
    assert(link@ == link_of(report@));
}

/// What is told of an answer that is no snapshot holds the answer.
pub proof fn law_unexpected_replies_are_told(e: UnexpectedReply)
    ensures
        e.words() == "unexpected reply to graph query: "@ + e.reply@,
{
}

} // verus!
