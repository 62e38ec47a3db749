//! The reachability graph and the planning of routes through it.

use crate::paths::{best_paths, Edge, Path};
use crate::text::same;
use vstd::hash_map::StringHashMap;
use vstd::hash_set::StringHashSet;
use vstd::prelude::*;

verus! {

/// Hard ceilings on any graph or request that reaches the planner. The graph
/// is assembled from what peers report, so its size is theirs to influence.
pub const MAX_GRAPH_NODES: usize = 4_096;

pub const MAX_GRAPH_LINKS: usize = 32_768;

pub const MAX_ROUTE_HOPS: usize = 32;

pub const MAX_ROUTE_RESULTS: usize = 32;

// ---------------------------------------------------------------------------
// Identifiers
// ---------------------------------------------------------------------------

/// The id of a node of the mesh.
#[derive(Debug, PartialEq, Eq, Hash)]
pub struct NodeId(pub String);

impl View for NodeId {
    type V = Seq<char>;

    open spec fn view(&self) -> Seq<char> {
        self.0@
    }
}

impl Clone for NodeId {
    fn clone(&self) -> (r: Self)
        ensures
            r@ == self@,
    {
        NodeId(self.0.clone())
    }
}

/// The name of a protocol that a link carries.
#[derive(Debug, PartialEq, Eq, Hash)]
pub struct ProtocolId(pub String);

impl View for ProtocolId {
    type V = Seq<char>;

    open spec fn view(&self) -> Seq<char> {
        self.0@
    }
}

impl Clone for ProtocolId {
    fn clone(&self) -> (r: Self)
        ensures
            r@ == self@,
    {
        ProtocolId(self.0.clone())
    }
}

impl ProtocolId {
    pub const HTTP: &'static str = "http";

    pub const HTTPS: &'static str = "https";

    pub const SSH: &'static str = "ssh";

    pub const RADII: &'static str = "radii";

    pub fn new(value: &str) -> (r: Self)
        ensures
            r@ == value@,
    {
        ProtocolId(value.to_owned())
    }
}

/// The role under which a node advertises a listen address.
#[derive(Debug, PartialEq, Eq, Hash)]
pub struct RoleId(pub String);

impl View for RoleId {
    type V = Seq<char>;

    open spec fn view(&self) -> Seq<char> {
        self.0@
    }
}

impl RoleId {
    pub const RELAY: &'static str = "relay";

    pub const HTTP: &'static str = "http";

    pub fn new(value: &str) -> (r: Self)
        ensures
            r@ == value@,
    {
        RoleId(value.to_owned())
    }
}

// ---------------------------------------------------------------------------
// The graph
// ---------------------------------------------------------------------------

/// One reported direction between two nodes.
#[derive(Debug)]
pub struct Link {
    pub from: NodeId,
    pub to: NodeId,
    pub protocol: ProtocolId,
    pub reachable: bool,
    pub latency_ms: Option<u32>,
}

/// What a [`Link`] says.
pub struct LinkView {
    pub from: Seq<char>,
    pub to: Seq<char>,
    pub protocol: Seq<char>,
    pub reachable: bool,
    pub latency_ms: Option<u32>,
}

impl View for Link {
    type V = LinkView;

    open spec fn view(&self) -> LinkView {
        LinkView {
            from: self.from@,
            to: self.to@,
            protocol: self.protocol@,
            reachable: self.reachable,
            latency_ms: self.latency_ms,
        }
    }
}

/// One line of a reachability report.
#[derive(Debug)]
pub struct ReachabilityReport {
    pub from: String,
    pub target: String,
    pub protocol: String,
    pub reachable: bool,
    pub rtt_ms: Option<u32>,
}

impl ReachabilityReport {
    /// The link that the report speaks of.
    pub open spec fn link(&self) -> LinkView {
        LinkView {
            from: self.from@,
            to: self.target@,
            protocol: self.protocol@,
            reachable: self.reachable,
            latency_ms: self.rtt_ms,
        }
    }
}

/// The graph that the planner works on. It never outgrows its caps: a link
/// that does not fit is dropped and counted.
pub struct GraphSnapshot {
    pub nodes: StringHashSet,
    pub links: Vec<Link>,
    pub dropped_links: Tally,
}

/// A count that only this module moves.
pub struct Tally {
    count: usize,
}

impl View for Tally {
    type V = nat;

    closed spec fn view(&self) -> nat {
        self.count as nat
    }
}

impl Tally {
    /// Nothing counted yet.
    fn new() -> (r: Self)
        ensures
            r@ == 0,
    {
        Tally { count: 0 }
    }

    /// One more.
    fn step(&mut self)
        requires
            old(self)@ < usize::MAX,
        ensures
            final(self)@ == old(self)@ + 1,
    {
        self.count = self.count + 1;
    }

    /// The count.
    pub fn get(&self) -> (r: usize)
        ensures
            r == self@,
    {
        self.count
    }
}

/// What a [`GraphSnapshot`] holds.
#[verifier::ext_equal]
pub struct SnapshotView {
    pub nodes: Set<Seq<char>>,
    pub links: Seq<LinkView>,
    pub dropped: nat,
}

impl SnapshotView {
    pub open spec fn empty() -> Self {
        SnapshotView { nodes: Set::empty(), links: Seq::empty(), dropped: 0 }
    }

    /// How many nodes `link` brings that are not in the graph yet. A link from
    /// a new node to itself brings one.
    pub open spec fn new_ends(self, link: LinkView) -> nat {
        (if self.nodes.contains(link.from) {
            0nat
        } else {
            1
        }) + (if self.nodes.contains(link.to) || link.to == link.from {
            0nat
        } else {
            1
        })
    }

    /// Whether both caps leave room for `link`.
    pub open spec fn admits(self, link: LinkView) -> bool {
        &&& self.links.len() < MAX_GRAPH_LINKS
        &&& self.nodes.len() + self.new_ends(link) <= MAX_GRAPH_NODES
    }

    /// The graph after `link` was offered to it.
    pub open spec fn offered(self, link: LinkView) -> Self {
        if self.admits(link) {
            SnapshotView {
                nodes: self.nodes.insert(link.from).insert(link.to),
                links: self.links.push(link),
                dropped: self.dropped,
            }
        } else {
            SnapshotView { dropped: self.dropped + 1, ..self }
        }
    }

    /// The graph after all of `links` were offered in order.
    pub open spec fn offered_all(self, links: Seq<LinkView>) -> Self
        decreases links.len(),
    {
        if links.len() == 0 {
            self
        } else {
            self.offered_all(links.drop_last()).offered(links.last())
        }
    }

    /// Both caps hold, and the nodes are exactly the ends of the links.
    pub open spec fn well_formed(self) -> bool {
        &&& self.nodes.finite()
        &&& self.nodes.len() <= MAX_GRAPH_NODES
        &&& self.links.len() <= MAX_GRAPH_LINKS
        &&& forall|i: int|
            0 <= i < self.links.len() ==> self.nodes.contains((#[trigger] self.links[i]).from)
                && self.nodes.contains(self.links[i].to)
        &&& forall|n: Seq<char>| #[trigger]
            self.nodes.contains(n) ==> exists|i: int|
                0 <= i < self.links.len() && ((#[trigger] self.links[i]).from == n
                    || self.links[i].to == n)
    }
}

/// However many links are offered, the caps hold and the nodes stay exactly
/// the ends of the links that were let in.
pub proof fn law_caps_hold(graph: SnapshotView, links: Seq<LinkView>)
    requires
        graph.well_formed(),
    ensures
        graph.offered_all(links).well_formed(),
        graph.offered_all(links).links.len() + graph.offered_all(links).dropped
            == graph.links.len() + graph.dropped + links.len(),
    decreases links.len(),
{
    if links.len() > 0 {
        let before = graph.offered_all(links.drop_last());
        let link = links.last();
        law_caps_hold(graph, links.drop_last());
        let after = before.offered(link);
        if before.admits(link) {
            vstd::set::axiom_set_insert_finite(before.nodes, link.from);
            assert(after.nodes.len() <= before.nodes.len() + before.new_ends(link));
            assert forall|n: Seq<char>| #[trigger] after.nodes.contains(n) implies exists|i: int|
                0 <= i < after.links.len() && ((#[trigger] after.links[i]).from == n
                    || after.links[i].to == n) by {
                if n == link.from || n == link.to {
                    assert(after.links[before.links.len() as int] == link);
                } else {
                    assert(before.nodes.contains(n));
                    let i = choose|i: int|
                        0 <= i < before.links.len() && ((#[trigger] before.links[i]).from == n
                            || before.links[i].to == n);
                    assert(after.links[i] == before.links[i]);
                }
            }
        }
    }
}

impl View for GraphSnapshot {
    type V = SnapshotView;

    open spec fn view(&self) -> SnapshotView {
        SnapshotView {
            nodes: self.nodes@,
            links: self.links@.map_values(|l: Link| l@),
            dropped: self.dropped_links@,
        }
    }
}

impl Default for GraphSnapshot {
    fn default() -> (r: Self)
        ensures
            r@ == SnapshotView::empty(),
    {
        GraphSnapshot::new()
    }
}

impl GraphSnapshot {
    pub fn new() -> (r: Self)
        ensures
            r@ == SnapshotView::empty(),
    {
        let r = GraphSnapshot {
            nodes: StringHashSet::new(),
            links: Vec::new(),
            dropped_links: Tally::new(),
        };
        assert(r@ =~= SnapshotView::empty());
        r
    }

    /// Adds a link, or drops it if the snapshot is at one of its caps.
    pub fn add_link(&mut self, link: Link) -> (added: bool)
        requires
            old(self)@.dropped < usize::MAX,
        ensures
            added == old(self)@.admits(link@),
            final(self)@ == old(self)@.offered(link@),
    {
        let ghost before = self@;
        let from_new: bool = !self.nodes.contains(link.from.0.as_str());
        let to_new: bool = !self.nodes.contains(link.to.0.as_str()) && !same(
            link.to.0.as_str(),
            link.from.0.as_str(),
        );
        let would_add: usize = (if from_new { 1 } else { 0 }) + (if to_new { 1 } else { 0 });
        let count: usize = self.nodes.len();
        if self.links.len() >= MAX_GRAPH_LINKS || count > MAX_GRAPH_NODES || would_add
            > MAX_GRAPH_NODES - count {
            self.dropped_links.step();
            assert(self@ =~= before.offered(link@));
            return false;
        }
        self.nodes.insert(link.from.0.clone());
        self.nodes.insert(link.to.0.clone());
        self.links.push(link);
        assert(self@.links =~= before.links.push(link@));
        assert(self@ =~= before.offered(link@));
        true
    }

    /// How many links were refused because the snapshot was at a cap. Non-zero
    /// means that the planner works from a partial view.
    pub fn dropped_links(&self) -> (r: usize)
        ensures
            r == self@.dropped,
    {
        self.dropped_links.get()
    }

    /// The graph that the reports describe, in order, up to the caps.
    pub fn from_reports(reports: Vec<ReachabilityReport>) -> (r: Self)
        ensures
            r@ == SnapshotView::empty().offered_all(
                reports@.map_values(|report: ReachabilityReport| report.link()),
            ),
            r@.well_formed(),
    {
        let ghost all = reports@.map_values(|report: ReachabilityReport| report.link());
        let mut snapshot: GraphSnapshot = GraphSnapshot::new();
        let mut i: usize = 0;
        assert(all.take(0) =~= Seq::<LinkView>::empty());
        while i < reports.len()
            invariant
                i <= reports@.len(),
                all == reports@.map_values(|report: ReachabilityReport| report.link()),
                snapshot@ == SnapshotView::empty().offered_all(all.take(i as int)),
                snapshot@.dropped <= i,
            decreases reports@.len() - i,
        {
            let report: &ReachabilityReport = &reports[i];
            let link: Link = Link {
                from: NodeId(report.from.clone()),
                to: NodeId(report.target.clone()),
                protocol: ProtocolId::new(report.protocol.as_str()),
                reachable: report.reachable,
                latency_ms: report.rtt_ms,
            };
            assert(all.take(i + 1).drop_last() =~= all.take(i as int));
            assert(all.take(i + 1).last() == link@);
            let _ = snapshot.add_link(link);
            i += 1;
        }
        assert(all.take(all.len() as int) =~= all);
        proof {
            law_caps_hold(SnapshotView::empty(), all);
        }
        snapshot
    }
}

// ---------------------------------------------------------------------------
// Planning
// ---------------------------------------------------------------------------

/// What is asked of the planner.
#[derive(Debug)]
pub struct RouteRequest {
    pub source: NodeId,
    pub target: NodeId,
    pub allowed_protocols: Vec<ProtocolId>,
    pub max_hops: usize,
}

/// What a [`RouteRequest`] asks for. An empty `allowed` admits every protocol.
pub struct RequestView {
    pub source: Seq<char>,
    pub target: Seq<char>,
    pub allowed: Seq<Seq<char>>,
    pub max_hops: nat,
}

impl View for RouteRequest {
    type V = RequestView;

    open spec fn view(&self) -> RequestView {
        RequestView {
            source: self.source@,
            target: self.target@,
            allowed: self.allowed_protocols@.map_values(|p: ProtocolId| p@),
            max_hops: self.max_hops as nat,
        }
    }
}

/// A planned route.
#[derive(Debug)]
pub struct RouteCandidate {
    /// Every node on the path, starting with the source and ending with the
    /// target. A direct link is therefore two entries.
    pub hops: Vec<NodeId>,
    /// The protocol of the final link into the target.
    pub protocol: ProtocolId,
    /// The sum of the link costs.
    pub score: u128,
}

impl RouteCandidate {
    /// The ids of the nodes on the path.
    pub open spec fn names(&self) -> Seq<Seq<char>> {
        self.hops@.map_values(|n: NodeId| n@)
    }
}

/// The cost of traversing a single link.
///
/// The cost depends on the link alone, never on the path taken to reach it,
/// and it is never negative: both are what makes an optimal ranking possible
/// without enumerating every path.
pub trait RouteScorer: Send + Sync {
    /// The cost of `link`.
    spec fn cost(&self, link: LinkView) -> u64;

    fn link_cost(&self, link: &Link) -> (r: u64)
        ensures
            r == self.cost(link@),
    ;
}

/// Charges the measured latency plus a penalty per hop, in milliseconds.
#[derive(Debug, Clone, Copy)]
pub struct DefaultScorer;

impl DefaultScorer {
    /// Charged per hop, so a shorter path wins ties against a longer one of
    /// equal latency.
    pub const HOP_PENALTY_MS: u64 = 10;

    /// Assumed for a link whose round trip was never measured. An unmeasured
    /// link should lose to a measured good one.
    pub const UNKNOWN_LATENCY_MS: u64 = 1000;
}

impl RouteScorer for DefaultScorer {
    open spec fn cost(&self, link: LinkView) -> u64 {
        match link.latency_ms {
            Some(ms) => (DefaultScorer::HOP_PENALTY_MS + ms) as u64,
            None => (DefaultScorer::HOP_PENALTY_MS + DefaultScorer::UNKNOWN_LATENCY_MS) as u64,
        }
    }

    fn link_cost(&self, link: &Link) -> (r: u64) {
        let latency: u64 = match link.latency_ms {
            Some(ms) => ms as u64,
            None => DefaultScorer::UNKNOWN_LATENCY_MS,
        };
        DefaultScorer::HOP_PENALTY_MS + latency
    }
}

/// The planner may use `link` for a request that admits `allowed`.
pub open spec fn usable(link: LinkView, allowed: Seq<Seq<char>>) -> bool {
    link.reachable && (allowed.len() == 0 || allowed.contains(link.protocol))
}

/// Link `used[i]` leads from the `i`-th hop to the next one.
pub open spec fn bridges(
    links: Seq<LinkView>,
    allowed: Seq<Seq<char>>,
    hops: Seq<Seq<char>>,
    used: Seq<int>,
    i: int,
) -> bool {
    &&& 0 <= used[i] < links.len()
    &&& usable(links[used[i]], allowed)
    &&& links[used[i]].from == hops[i]
    &&& links[used[i]].to == hops[i + 1]
}

/// The hop budget of a request after clamping.
pub open spec fn hop_budget(max_hops: nat) -> nat {
    if max_hops <= MAX_ROUTE_HOPS {
        max_hops
    } else {
        MAX_ROUTE_HOPS as nat
    }
}

/// The number of results of a request after clamping.
pub open spec fn result_budget(limit: nat) -> nat {
    if limit <= MAX_ROUTE_RESULTS {
        limit
    } else {
        MAX_ROUTE_RESULTS as nat
    }
}

/// `hops` is a loop-free way from source to target over the links `used`, all
/// of them usable, within the hop budget.
pub open spec fn is_route(
    links: Seq<LinkView>,
    request: RequestView,
    hops: Seq<Seq<char>>,
    used: Seq<int>,
) -> bool {
    &&& hops.len() == used.len() + 1
    &&& used.len() <= hop_budget(request.max_hops)
    &&& hops[0] == request.source
    &&& hops.last() == request.target
    &&& hops.no_duplicates()
    &&& forall|i: int|
        0 <= i < used.len() ==> #[trigger] bridges(links, request.allowed, hops, used, i)
}

/// The sum of the costs of the links `used`.
pub open spec fn route_cost<S: RouteScorer>(scorer: S, links: Seq<LinkView>, used: Seq<int>) -> nat
    decreases used.len(),
{
    if used.len() == 0 {
        0
    } else {
        route_cost(scorer, links, used.drop_last()) + scorer.cost(links[used.last()]) as nat
    }
}

/// The protocol of the last link, or the mesh's own where there is none.
pub open spec fn final_protocol(links: Seq<LinkView>, used: Seq<int>) -> Seq<char> {
    if used.len() == 0 {
        "radii"@
    } else {
        links[used.last()].protocol
    }
}

/// `c` describes the route over the links `used`.
pub open spec fn describes<S: RouteScorer>(
    scorer: S,
    links: Seq<LinkView>,
    request: RequestView,
    c: RouteCandidate,
    used: Seq<int>,
) -> bool {
    &&& is_route(links, request, c.names(), used)
    &&& c.score == route_cost(scorer, links, used)
    &&& c.protocol@ == final_protocol(links, used)
}

/// `c` describes a route that the request admits.
pub open spec fn admitted<S: RouteScorer>(
    scorer: S,
    links: Seq<LinkView>,
    request: RequestView,
    c: RouteCandidate,
) -> bool {
    exists|used: Seq<int>| describes(scorer, links, request, c, used)
}

/// One of the candidates visits `hops` at no more than `cost`.
pub open spec fn offered_at(r: Seq<RouteCandidate>, hops: Seq<Seq<char>>, cost: nat) -> bool {
    exists|j: int| 0 <= j < r.len() && (#[trigger] r[j]).names() == hops && r[j].score <= cost
}

/// No candidate costs more than `cost`.
pub open spec fn none_dearer(r: Seq<RouteCandidate>, cost: nat) -> bool {
    forall|j: int| 0 <= j < r.len() ==> (#[trigger] r[j]).score <= cost
}

/// `r` is a ranking of the routes that the request admits: distinct loop-free
/// routes, cheapest first, at most `limit` of them, and a route is left out
/// only when the list is full of routes that cost no more.
pub open spec fn ranking<S: RouteScorer>(
    scorer: S,
    links: Seq<LinkView>,
    request: RequestView,
    limit: nat,
    r: Seq<RouteCandidate>,
) -> bool {
    &&& r.len() <= result_budget(limit)
    &&& forall|j: int| 0 <= j < r.len() ==> admitted(scorer, links, request, #[trigger] r[j])
    &&& forall|i: int, j: int|
        0 <= i < j < r.len() ==> (#[trigger] r[i]).names() != (#[trigger] r[j]).names()
    &&& forall|i: int, j: int|
        0 <= i < j < r.len() ==> (#[trigger] r[i]).score <= (#[trigger] r[j]).score
    &&& forall|hops: Seq<Seq<char>>, used: Seq<int>| #[trigger]
        is_route(links, request, hops, used) ==> offered_at(
            r,
            hops,
            route_cost(scorer, links, used),
        ) || (r.len() == result_budget(limit) && none_dearer(r, route_cost(scorer, links, used)))
}

/// Distinct numbers below `m` are at most `m` many.
proof fn lemma_crowded(places: Seq<int>, m: int)
    requires
        0 <= m,
        places.no_duplicates(),
        forall|i: int| 0 <= i < places.len() ==> 0 <= #[trigger] places[i] < m,
    ensures
        places.len() <= m,
{
    vstd::set_lib::lemma_int_range(0, m);
    places.unique_seq_to_set();
    vstd::set_lib::lemma_len_subset(places.to_set(), vstd::set_lib::set_int_range(0, m));
}

/// The route over `hops` stands at rank `k` of `b`, before rank `i`.
spec fn ranked(b: Seq<RouteCandidate>, i: int, hops: Seq<Seq<char>>, k: int) -> bool {
    0 <= k < b.len() && k < i && b[k].names() == hops
}

/// Where `b` has nothing as cheap at rank `i`, it has what costs so little
/// before that rank.
proof fn lemma_ranked<S: RouteScorer>(
    scorer: S,
    links: Seq<LinkView>,
    request: RequestView,
    limit: nat,
    b: Seq<RouteCandidate>,
    i: int,
    top: nat,
    c: RouteCandidate,
) -> (k: int)
    requires
        ranking(scorer, links, request, limit, b),
        0 <= i < result_budget(limit),
        !(i < b.len() && b[i].score <= top),
        admitted(scorer, links, request, c),
        c.score <= top,
    ensures
        ranked(b, i, c.names(), k),
{
    let used = choose|used: Seq<int>| describes(scorer, links, request, c, used);
    let cost = route_cost(scorer, links, used);
    assert(is_route(links, request, c.names(), used));
    if b.len() == result_budget(limit) && none_dearer(b, cost) {
        assert(b[i].score <= cost);
    }
    assert(offered_at(b, c.names(), cost));
    let k = choose|k: int|
        0 <= k < b.len() && (#[trigger] b[k]).names() == c.names() && b[k].score <= cost;
    if k > i {
        assert(b[i].score <= b[k].score);
    }
    k
}

/// The ranks of the first `n` routes of `a` in `b`.
proof fn lemma_places<S: RouteScorer>(
    scorer: S,
    links: Seq<LinkView>,
    request: RequestView,
    limit: nat,
    a: Seq<RouteCandidate>,
    b: Seq<RouteCandidate>,
    i: int,
    top: nat,
    n: nat,
) -> (places: Seq<int>)
    requires
        ranking(scorer, links, request, limit, b),
        0 <= i < result_budget(limit),
        !(i < b.len() && b[i].score <= top),
        n <= a.len(),
        forall|j: int|
            0 <= j < n ==> admitted(scorer, links, request, #[trigger] a[j]) && a[j].score <= top,
    ensures
        places.len() == n,
        forall|j: int| 0 <= j < n ==> ranked(b, i, a[j].names(), #[trigger] places[j]),
    decreases n,
{
    if n == 0 {
        Seq::empty()
    } else {
        let before = lemma_places(
            scorer,
            links,
            request,
            limit,
            a,
            b,
            i,
            top,
            (n - 1) as nat,
        );
        let k = lemma_ranked(scorer, links, request, limit, b, i, top, a[n - 1]);
        before.push(k)
    }
}

/// Distinct routes that the request admits, cheapest first.
#[verifier::opaque]
spec fn in_order<S: RouteScorer>(
    scorer: S,
    links: Seq<LinkView>,
    request: RequestView,
    a: Seq<RouteCandidate>,
) -> bool {
    &&& forall|j: int| 0 <= j < a.len() ==> admitted(scorer, links, request, #[trigger] a[j])
    &&& forall|x: int, y: int|
        0 <= x < y < a.len() ==> (#[trigger] a[x]).names() != (#[trigger] a[y]).names()
    &&& forall|x: int, y: int|
        0 <= x < y < a.len() ==> (#[trigger] a[x]).score <= (#[trigger] a[y]).score
}

proof fn lemma_in_order<S: RouteScorer>(
    scorer: S,
    links: Seq<LinkView>,
    request: RequestView,
    limit: nat,
    a: Seq<RouteCandidate>,
)
    requires
        ranking(scorer, links, request, limit, a),
    ensures
        in_order(scorer, links, request, a),
        a.len() <= result_budget(limit),
{
    reveal(in_order);
}

/// A ranking that is not cut short before rank `i` has there something that
/// costs no more than what any other list of routes in order has there.
proof fn lemma_rank<S: RouteScorer>(
    scorer: S,
    links: Seq<LinkView>,
    request: RequestView,
    limit: nat,
    a: Seq<RouteCandidate>,
    b: Seq<RouteCandidate>,
    i: int,
)
    requires
        in_order(scorer, links, request, a),
        ranking(scorer, links, request, limit, b),
        0 <= i < a.len(),
        i < result_budget(limit),
    ensures
        i < b.len(),
        b[i].score <= a[i].score,
{
    let top = a[i].score as nat;
    if !(i < b.len() && b[i].score <= top) {
        assert(forall|j: int|
            0 <= j < i + 1 ==> admitted(scorer, links, request, #[trigger] a[j]) && a[j].score
                <= top) by {
            reveal(in_order);
        }
        let places = lemma_places(
            scorer,
            links,
            request,
            limit,
            a,
            b,
            i,
            top,
            (i + 1) as nat,
        );
        assert(places.no_duplicates()) by {
            reveal(in_order);
            lemma_distinct_places(a, b, i, places);
        }
        assert forall|j: int| 0 <= j < places.len() implies 0 <= #[trigger] places[j] < i by {
            assert(ranked(b, i, a[j].names(), places[j]));
        }
        lemma_crowded(places, i);
    }
}

/// Different routes stand at different ranks.
proof fn lemma_distinct_places(
    a: Seq<RouteCandidate>,
    b: Seq<RouteCandidate>,
    i: int,
    places: Seq<int>,
)
    requires
        places.len() <= a.len(),
        forall|x: int, y: int|
            0 <= x < y < a.len() ==> (#[trigger] a[x]).names() != (#[trigger] a[y]).names(),
        forall|j: int|
            0 <= j < places.len() ==> ranked(b, i, a[j].names(), #[trigger] places[j]),
    ensures
        places.no_duplicates(),
{
    assert forall|x: int, y: int|
        0 <= x < places.len() && 0 <= y < places.len() && x != y implies places[x]
        != places[y] by {
        assert(ranked(b, i, a[x].names(), places[x]));
        assert(ranked(b, i, a[y].names(), places[y]));
        if x < y {
            assert(a[x].names() != a[y].names());
        } else {
            assert(a[y].names() != a[x].names());
        }
    }
}

/// A smaller limit only cuts the list short: the costs are those that a larger
/// limit gives, as many of them as fit. With equal limits they are the same, so
/// the costs of a plan depend on nothing but the graph and the request.
pub proof fn law_limit_only_truncates<S: RouteScorer>(
    scorer: S,
    links: Seq<LinkView>,
    request: RequestView,
    small: nat,
    large: nat,
    a: Seq<RouteCandidate>,
    b: Seq<RouteCandidate>,
)
    requires
        small <= large,
        ranking(scorer, links, request, small, a),
        ranking(scorer, links, request, large, b),
    ensures
        a.len() == if b.len() <= result_budget(small) {
            b.len()
        } else {
            result_budget(small)
        },
        forall|i: int| 0 <= i < a.len() ==> (#[trigger] a[i]).score == b[i].score,
{
    lemma_in_order(scorer, links, request, small, a);
    lemma_in_order(scorer, links, request, large, b);
    assert forall|i: int| 0 <= i < a.len() implies i < b.len() && (#[trigger] a[i]).score
        == b[i].score by {
        lemma_rank(scorer, links, request, large, a, b, i);
        lemma_rank(scorer, links, request, small, b, a, i);
    }
    if a.len() > 0 {
        assert(a[a.len() - 1].score == b[a.len() - 1].score);
    }
    if a.len() < b.len() && a.len() < result_budget(small) {
        lemma_rank(scorer, links, request, small, b, a, a.len() as int);
    }
}

/// Edge `e` stands for `link`.
spec fn stands_for<S: RouteScorer>(
    scorer: S,
    allowed: Seq<Seq<char>>,
    names: Seq<Seq<char>>,
    link: LinkView,
    e: Edge,
) -> bool {
    &&& e.from < names.len()
    &&& e.to < names.len()
    &&& names[e.from as int] == link.from
    &&& names[e.to as int] == link.to
    &&& e.cost == scorer.cost(link)
    &&& e.open == usable(link, allowed)
}

/// The numbered graph stands for the named one.
spec fn mirrors<S: RouteScorer>(
    scorer: S,
    links: Seq<LinkView>,
    request: RequestView,
    names: Seq<Seq<char>>,
    g: Seq<Edge>,
    s: usize,
    t: usize,
) -> bool {
    &&& names.no_duplicates()
    &&& g.len() == links.len()
    &&& g.len() <= usize::MAX
    &&& s < names.len()
    &&& t < names.len()
    &&& names[s as int] == request.source
    &&& names[t as int] == request.target
    &&& forall|i: int|
        0 <= i < g.len() ==> stands_for(scorer, request.allowed, names, links[i], #[trigger] g[i])
}

/// The names of the numbered nodes.
spec fn named(names: Seq<Seq<char>>, hops: Seq<usize>) -> Seq<Seq<char>> {
    hops.map_values(|v: usize| names[v as int])
}

/// The numbers of the links, as integers.
spec fn numbers(links: Seq<usize>) -> Seq<int> {
    links.map_values(|l: usize| l as int)
}

proof fn lemma_same_cost<S: RouteScorer>(
    scorer: S,
    links: Seq<LinkView>,
    request: RequestView,
    names: Seq<Seq<char>>,
    g: Seq<Edge>,
    s: usize,
    t: usize,
    used: Seq<usize>,
)
    requires
        mirrors(scorer, links, request, names, g, s, t),
        forall|i: int| 0 <= i < used.len() ==> (#[trigger] used[i]) < g.len(),
    ensures
        crate::paths::cost_of(g, used) == route_cost(scorer, links, numbers(used)),
    decreases used.len(),
{
    if used.len() > 0 {
        assert(numbers(used).drop_last() =~= numbers(used.drop_last()));
        lemma_same_cost(scorer, links, request, names, g, s, t, used.drop_last());
        let last = used[used.len() - 1];
        assert(stands_for(scorer, request.allowed, names, links[last as int], g[last as int]));
    }
}

/// A numbered route is a named route at the same cost.
proof fn lemma_route_named<S: RouteScorer>(
    scorer: S,
    links: Seq<LinkView>,
    request: RequestView,
    names: Seq<Seq<char>>,
    g: Seq<Edge>,
    s: usize,
    t: usize,
    hops: Seq<usize>,
    used: Seq<usize>,
)
    requires
        mirrors(scorer, links, request, names, g, s, t),
        crate::paths::route(g, s, t, hop_budget(request.max_hops), hops, used),
        forall|i: int| 0 <= i < hops.len() ==> (#[trigger] hops[i]) < names.len(),
    ensures
        is_route(links, request, named(names, hops), numbers(used)),
        crate::paths::cost_of(g, used) == route_cost(scorer, links, numbers(used)),
{
    let nh = named(names, hops);
    let nu = numbers(used);
    assert forall|i: int| 0 <= i < nu.len() implies #[trigger] bridges(
        links,
        request.allowed,
        nh,
        nu,
        i,
    ) by {
        assert(crate::paths::joins(g, hops, used, i));
        let l = used[i] as int;
        assert(stands_for(scorer, request.allowed, names, links[l], g[l]));
    }
    assert forall|i: int| 0 <= i < used.len() implies (#[trigger] used[i]) < g.len() by {
        assert(crate::paths::joins(g, hops, used, i));
    }
    assert forall|i: int, j: int| 0 <= i < nh.len() && 0 <= j < nh.len() && i != j implies nh[i]
        != nh[j] by {
        assert(hops[i] != hops[j]);
    }
    lemma_same_cost(scorer, links, request, names, g, s, t, used);
}

/// A named route has its numbered counterpart.
proof fn lemma_route_numbered<S: RouteScorer>(
    scorer: S,
    links: Seq<LinkView>,
    request: RequestView,
    names: Seq<Seq<char>>,
    g: Seq<Edge>,
    s: usize,
    t: usize,
    hops: Seq<Seq<char>>,
    used: Seq<int>,
) -> (r: (Seq<usize>, Seq<usize>))
    requires
        mirrors(scorer, links, request, names, g, s, t),
        is_route(links, request, hops, used),
    ensures
        crate::paths::route(g, s, t, hop_budget(request.max_hops), r.0, r.1),
        named(names, r.0) == hops,
        crate::paths::cost_of(g, r.1) == route_cost(scorer, links, used),
{
    let nu: Seq<usize> = used.map_values(|l: int| l as usize);
    let nh: Seq<usize> = Seq::new(
        hops.len(),
        |i: int|
            if i == 0 {
                s
            } else {
                g[used[i - 1]].to
            },
    );
    assert forall|i: int| 0 <= i < hops.len() implies names[(#[trigger] nh[i]) as int] == hops[i]
        && nh[i] < names.len() by {
        if i > 0 {
            assert(bridges(links, request.allowed, hops, used, i - 1));
            assert(stands_for(
                scorer,
                request.allowed,
                names,
                links[used[i - 1]],
                g[used[i - 1]],
            ));
        }
    }
    assert forall|i: int| 0 <= i < nu.len() implies #[trigger] crate::paths::joins(g, nh, nu, i) by {
        assert(bridges(links, request.allowed, hops, used, i));
        assert(stands_for(scorer, request.allowed, names, links[used[i]], g[used[i]]));
        assert(names[nh[i] as int] == hops[i]);
        assert(nu[i] == used[i]);
        assert(names[g[used[i]].from as int] == names[nh[i] as int]);
    }
    assert forall|i: int, j: int| 0 <= i < nh.len() && 0 <= j < nh.len() && i != j implies nh[i]
        != nh[j] by {
        assert(hops[i] != hops[j]);
        assert(names[nh[i] as int] == hops[i]);
        assert(names[nh[j] as int] == hops[j]);
    }
    assert(named(names, nh) =~= hops);
    assert(names[nh.last() as int] == names[t as int]);
    assert(nh.last() == t);
    assert forall|i: int| 0 <= i < nu.len() implies (#[trigger] nu[i]) < g.len() && nu[i]
        == used[i] by {
        assert(bridges(links, request.allowed, hops, used, i));
    }
    assert(numbers(nu) =~= used);
    lemma_same_cost(scorer, links, request, names, g, s, t, nu);
    (nh, nu)
}

/// Numbers node names in order of first appearance.
struct Numbering {
    names: Vec<NodeId>,
    index: StringHashMap<usize>,
}

impl Numbering {
    spec fn list(&self) -> Seq<Seq<char>> {
        self.names@.map_values(|n: NodeId| n@)
    }

    spec fn well_formed(&self) -> bool {
        &&& self.list().no_duplicates()
        &&& forall|k: Seq<char>| #[trigger]
            self.index@.contains_key(k) ==> self.index@[k] < self.list().len()
                && self.list()[self.index@[k] as int] == k
        &&& forall|i: int|
            0 <= i < self.list().len() ==> self.index@.contains_key(#[trigger] self.list()[i])
    }

    fn new() -> (r: Self)
        ensures
            r.well_formed(),
            r.list().len() == 0,
    {
        Numbering { names: Vec::new(), index: StringHashMap::new() }
    }

    /// The number of `name`, which is new if it was not seen before.
    fn number(&mut self, name: &NodeId) -> (r: usize)
        requires
            old(self).well_formed(),
        ensures
            final(self).well_formed(),
            r < final(self).list().len(),
            final(self).list()[r as int] == name@,
            old(self).list().is_prefix_of(final(self).list()),
    {
        if let Some(i) = self.index.get(name.0.as_str()) {
            return *i;
        }
        let ghost before = self.list();
        let i: usize = self.names.len();
        self.index.insert(name.0.clone(), i);
        self.names.push(name.clone());
        proof {
            assert(self.list() =~= before.push(name@));
            assert forall|a: int, b: int|
                0 <= a < self.list().len() && 0 <= b < self.list().len() && a != b implies self.list()[a]
                != self.list()[b] by {
                if a < before.len() && b < before.len() {
                    assert(before[a] != before[b]);
                } else if a < before.len() {
                    assert(old(self).index@.contains_key(before[a]));
                } else {
                    assert(old(self).index@.contains_key(before[b]));
                }
            }
        }
        i
    }
}

/// Whether the list holds `protocol`.
fn admits_protocol(allowed: &Vec<ProtocolId>, protocol: &ProtocolId) -> (r: bool)
    ensures
        r == (allowed@.len() == 0 || allowed@.map_values(|p: ProtocolId| p@).contains(protocol@)),
{
    let ghost views = allowed@.map_values(|p: ProtocolId| p@);
    let mut i: usize = 0;
    while i < allowed.len()
        invariant
            i <= allowed@.len(),
            views == allowed@.map_values(|p: ProtocolId| p@),
            forall|j: int| 0 <= j < i ==> #[trigger] views[j] != protocol@,
        decreases allowed@.len() - i,
    {
        if same(allowed[i].0.as_str(), protocol.0.as_str()) {
            assert(views[i as int] == protocol@);
            return true;
        }
        i += 1;
    }
    allowed.len() == 0
}

/// Plans routes under the cost model `S`.
pub struct RoutePlanner<S: RouteScorer> {
    pub scorer: S,
}

impl<S: RouteScorer> RoutePlanner<S> {
    pub fn new(scorer: S) -> (r: Self)
        ensures
            r.scorer == scorer,
    {
        RoutePlanner { scorer }
    }

    /// Up to `limit` distinct loop-free routes, cheapest first.
    ///
    /// The result really is the best `limit` routes: truncating never drops a
    /// route that is better than one that was kept. `max_hops` and `limit`
    /// are clamped to the ceilings of this module.
    pub fn plan(
        &self,
        snapshot: &GraphSnapshot,
        request: &RouteRequest,
        limit: usize,
    ) -> (r: Vec<RouteCandidate>)
        ensures
            ranking(self.scorer, snapshot@.links, request@, limit as nat, r@),
    {
        let limit: usize = if limit <= MAX_ROUTE_RESULTS { limit } else { MAX_ROUTE_RESULTS };
        let max_hops: usize = if request.max_hops <= MAX_ROUTE_HOPS {
            request.max_hops
        } else {
            MAX_ROUTE_HOPS
        };
        let ghost links = snapshot@.links;
        let mut numbering: Numbering = Numbering::new();
        let s: usize = numbering.number(&request.source);
        let t: usize = numbering.number(&request.target);
        let mut g: Vec<Edge> = Vec::new();
        let mut i: usize = 0;
        while i < snapshot.links.len()
            invariant
                i <= snapshot.links@.len(),
                links == snapshot.links@.map_values(|l: Link| l@),
                g@.len() == i,
                numbering.well_formed(),
                s < numbering.list().len(),
                t < numbering.list().len(),
                numbering.list()[s as int] == request@.source,
                numbering.list()[t as int] == request@.target,
                forall|j: int|
                    0 <= j < i ==> stands_for(
                        self.scorer,
                        request@.allowed,
                        numbering.list(),
                        links[j],
                        #[trigger] g@[j],
                    ),
            decreases snapshot.links@.len() - i,
        {
            let link: &Link = &snapshot.links[i];
            let ghost names0 = numbering.list();
            let from: usize = numbering.number(&link.from);
            let ghost names1 = numbering.list();
            let to: usize = numbering.number(&link.to);
            let cost: u64 = self.scorer.link_cost(link);
            let open: bool = link.reachable && admits_protocol(
                &request.allowed_protocols,
                &link.protocol,
            );
            g.push(Edge { from, to, cost, open });
            proof {
                let names2 = numbering.list();
                assert(links[i as int] == link@);
                assert(names1 =~= names2.take(names1.len() as int));
                assert(names0 =~= names1.take(names0.len() as int));
                assert forall|j: int| 0 <= j < i + 1 implies stands_for(
                    self.scorer,
                    request@.allowed,
                    names2,
                    links[j],
                    #[trigger] g@[j],
                ) by {
                    if j < i {
                        assert(stands_for(
                            self.scorer,
                            request@.allowed,
                            names0,
                            links[j],
                            g@[j],
                        ));
                    }
                }
            }
            i += 1;
        }
        let ghost names = numbering.list();
        let n: usize = numbering.names.len();
        proof {
            assert(mirrors(self.scorer, links, request@, names, g@, s, t));
            assert forall|e: int| 0 <= e < g@.len() implies (#[trigger] g@[e]).from < n && g@[e].to
                < n by {
                assert(stands_for(self.scorer, request@.allowed, names, links[e], g@[e]));
            }
        }
        let paths: Vec<Path> = best_paths(&g, n, s, t, max_hops, limit);
        let mut r: Vec<RouteCandidate> = Vec::new();
        let mut i: usize = 0;
        proof {
            assert forall|j: int| 0 <= j < paths@.len() implies is_route(
                links,
                request@,
                named(names, (#[trigger] paths@[j]).hops@),
                numbers(paths@[j].links@),
            ) && paths@[j].cost == route_cost(self.scorer, links, numbers(paths@[j].links@)) by {
                let p = paths@[j];
                assert(crate::paths::ranked(g@, s, t, max_hops as nat, p));
                lemma_route_named(
                    self.scorer,
                    links,
                    request@,
                    names,
                    g@,
                    s,
                    t,
                    p.hops@,
                    p.links@,
                );
            }
        }
        while i < paths.len()
            invariant
                i <= paths@.len(),
                n == names.len(),
                names == numbering.list(),
                links == snapshot.links@.map_values(|l: Link| l@),
                crate::paths::inside(paths@, n as nat),
                forall|j: int|
                    0 <= j < paths@.len() ==> is_route(
                        links,
                        request@,
                        named(names, (#[trigger] paths@[j]).hops@),
                        numbers(paths@[j].links@),
                    ) && paths@[j].cost == route_cost(
                        self.scorer,
                        links,
                        numbers(paths@[j].links@),
                    ),
                r@.len() == i,
                forall|j: int|
                    0 <= j < i ==> (#[trigger] r@[j]).names() == named(names, paths@[j].hops@)
                        && r@[j].score == paths@[j].cost && describes(
                        self.scorer,
                        links,
                        request@,
                        r@[j],
                        numbers(paths@[j].links@),
                    ),
            decreases paths@.len() - i,
        {
            let path: &Path = &paths[i];
            let mut hops: Vec<NodeId> = Vec::new();
            let mut v: usize = 0;
            while v < path.hops.len()
                invariant
                    v <= path.hops@.len(),
                    names == numbering.list(),
                    forall|v: int|
                        0 <= v < path.hops@.len() ==> (#[trigger] path.hops@[v]) < names.len(),
                    hops@.len() == v,
                    forall|w: int| 0 <= w < v ==> (#[trigger] hops@[w])@ == names[path.hops@[w] as int],
                decreases path.hops@.len() - v,
            {
                hops.push(numbering.names[path.hops[v]].clone());
                v += 1;
            }
            let ghost used = numbers(path.links@);
            let protocol: ProtocolId = if path.links.len() == 0 {
                ProtocolId::new("radii")
            } else {
                let last: usize = path.links[path.links.len() - 1];
                proof {
                    assert(bridges(
                        links,
                        request@.allowed,
                        named(names, path.hops@),
                        used,
                        used.len() - 1,
                    ));
                    assert(links[last as int] == snapshot.links@[last as int]@);
                }
                snapshot.links[last].protocol.clone()
            };
            let candidate: RouteCandidate = RouteCandidate { hops, protocol, score: path.cost };
            assert(candidate.names() =~= named(names, path.hops@));
            r.push(candidate);
            i += 1;
        }
        proof {
            assert forall|a: int, b: int| 0 <= a < b < r@.len() implies (#[trigger] r@[a]).names()
                != (#[trigger] r@[b]).names() by {
                let pa = paths@[a];
                let pb = paths@[b];
                if named(names, pa.hops@) == named(names, pb.hops@) {
                    assert forall|v: int| 0 <= v < pa.hops@.len() implies pa.hops@[v]
                        == pb.hops@[v] by {
                        assert(named(names, pa.hops@)[v] == named(names, pb.hops@)[v]);
                    }
                    assert(pa.hops@.len() == named(names, pa.hops@).len());
                    assert(pb.hops@.len() == named(names, pb.hops@).len());
                    assert(pa.hops@ =~= pb.hops@);
                }
            }
            assert forall|j: int| 0 <= j < r@.len() implies admitted(
                self.scorer,
                links,
                request@,
                #[trigger] r@[j],
            ) by {
                assert(describes(
                    self.scorer,
                    links,
                    request@,
                    r@[j],
                    numbers(paths@[j].links@),
                ));
            }
            assert forall|hops: Seq<Seq<char>>, used: Seq<int>| #[trigger]
                is_route(links, request@, hops, used) implies offered_at(
                r@,
                hops,
                route_cost(self.scorer, links, used),
            ) || (r@.len() == limit && none_dearer(
                r@,
                route_cost(self.scorer, links, used),
            )) by {
                let cost = route_cost(self.scorer, links, used);
                let (nh, nu) = lemma_route_numbered(
                    self.scorer,
                    links,
                    request@,
                    names,
                    g@,
                    s,
                    t,
                    hops,
                    used,
                );
                assert(crate::paths::route(g@, s, t, max_hops as nat, nh, nu));
                if crate::paths::kept(paths@, nh, cost) {
                    let j = choose|j: int|
                        0 <= j < paths@.len() && (#[trigger] paths@[j]).hops@ == nh
                            && paths@[j].cost <= cost;
                    assert(r@[j].names() == hops);
                } else {
                    assert forall|j: int| 0 <= j < r@.len() implies (#[trigger] r@[j]).score
                        <= cost by {
                        assert(paths@[j].cost <= cost);
                    }
                }
            }
        }
        r
    }
}

// ---------------------------------------------------------------------------
// What a graph and a plan are held to
// ---------------------------------------------------------------------------

/// A link that was let in stands behind those that were there, as it was
/// given; one that was not leaves the graph as it was and is counted.
pub proof fn law_links_are_added_as_given(
    before: GraphSnapshot,
    after: GraphSnapshot,
    link: Link,
    added: bool,
)
    requires
        added == before@.admits(link@),
        after@ == before@.offered(link@),
    ensures
        before.links@.len() < after.links@.len() <==> added,
        after.links@.len() == before.links@.len() + if added {
            1int
        } else {
            0
        },
        after.dropped_links@ == before.dropped_links@ + if added {
            0int
        } else {
            1
        },
        forall|i: int|
            0 <= i < before.links@.len() ==> {
                &&& (#[trigger] after.links@[i]).from.0@ == before.links@[i].from.0@
                &&& after.links@[i].to.0@ == before.links@[i].to.0@
                &&& after.links@[i].protocol.0@ == before.links@[i].protocol.0@
                &&& after.links@[i].reachable == before.links@[i].reachable
                &&& after.links@[i].latency_ms == before.links@[i].latency_ms
            },
        added ==> {
            let last = after.links@[before.links@.len() as int];
            &&& last.from.0@ == link.from.0@
            &&& last.to.0@ == link.to.0@
            &&& last.protocol.0@ == link.protocol.0@
            &&& last.reachable == link.reachable
            &&& last.latency_ms == link.latency_ms
        },
        forall|n: Seq<char>| #[trigger]
            after.nodes@.contains(n) <==> before.nodes@.contains(n) || (added && (n
                == link.from.0@ || n == link.to.0@)),
{
    let old_links = before.links@.map_values(|l: Link| l@);
    let new_links = after.links@.map_values(|l: Link| l@);
    assert(before@.links == old_links && after@.links == new_links);
    assert(new_links.len() == after.links@.len() && old_links.len() == before.links@.len());
    assert forall|i: int| 0 <= i < before.links@.len() implies {
        &&& (#[trigger] after.links@[i]).from.0@ == before.links@[i].from.0@
        &&& after.links@[i].to.0@ == before.links@[i].to.0@
        &&& after.links@[i].protocol.0@ == before.links@[i].protocol.0@
        &&& after.links@[i].reachable == before.links@[i].reachable
        &&& after.links@[i].latency_ms == before.links@[i].latency_ms
    } by {
        assert(new_links[i] == after.links@[i]@ && old_links[i] == before.links@[i]@);
        assert(new_links[i] == old_links[i]);
    }
    if added {
        let k = before.links@.len() as int;
        assert(new_links[k] == after.links@[k]@);
        assert(new_links[k] == link@);
    }
}

/// There is room for a link exactly while fewer than 32,768 are held and its
/// ends bring the nodes to no more than 4,096: two known ends bring none, one
/// known end at most one.
pub proof fn law_room_for_a_link(graph: GraphSnapshot, link: Link)
    requires
        graph.nodes@.finite(),
    ensures
        graph@.admits(link@) <==> graph.links@.len() < 32_768 && graph.nodes@.insert(
            link.from.0@,
        ).insert(link.to.0@).len() <= 4_096,
{
    assert(graph@.links.len() == graph.links@.len());
}

/// The field of a link that the planner reads.
proof fn lemma_link_fields(snapshot: GraphSnapshot, k: int)
    requires
        0 <= k < snapshot.links@.len(),
    ensures
        snapshot@.links.len() == snapshot.links@.len(),
        snapshot@.links[k].from == snapshot.links@[k].from.0@,
        snapshot@.links[k].to == snapshot.links@[k].to.0@,
        snapshot@.links[k].protocol == snapshot.links@[k].protocol.0@,
        snapshot@.links[k].reachable == snapshot.links@[k].reachable,
        snapshot@.links[k].latency_ms == snapshot.links@[k].latency_ms,
        snapshot@.links[k] == snapshot.links@[k]@,
{
    let all = snapshot.links@.map_values(|l: Link| l@);
    assert(snapshot@.links == all);
    assert(all[k] == snapshot.links@[k]@);
}

proof fn lemma_cost_is_a_sum<S: RouteScorer>(scorer: S, snapshot: GraphSnapshot, used: Seq<int>)
    requires
        forall|i: int| 0 <= i < used.len() ==> 0 <= #[trigger] used[i] < snapshot.links@.len(),
    ensures
        route_cost(scorer, snapshot@.links, used) == used.fold_left(
            0nat,
            |sum: nat, k: int| (sum + scorer.cost(snapshot.links@[k]@)) as nat,
        ),
    decreases used.len(),
{
    if used.len() > 0 {
        let init = used.drop_last();
        assert forall|i: int| 0 <= i < init.len() implies 0 <= #[trigger] init[i]
            < snapshot.links@.len() by {
            assert(init[i] == used[i]);
        }
        lemma_cost_is_a_sum(scorer, snapshot, init);
        assert(used[used.len() - 1] == used.last());
        lemma_link_fields(snapshot, used.last());
    }
}

/// A way over usable links is a route of the request.
pub proof fn lemma_short_way<S: RouteScorer>(
    scorer: S,
    snapshot: GraphSnapshot,
    request: RequestView,
    allowed: Seq<ProtocolId>,
    limit: nat,
    r: Seq<RouteCandidate>,
    hops: Seq<Seq<char>>,
    used: Seq<int>,
)
    requires
        ranking(scorer, snapshot@.links, request, limit, r),
        request.allowed == allowed.map_values(|p: ProtocolId| p@),
        limit > 0,
        used.len() <= request.max_hops,
        used.len() <= 32,
        hops.len() == used.len() + 1,
        hops[0] == request.source,
        hops[used.len() as int] == request.target,
        forall|i: int, j: int| 0 <= i < j < hops.len() ==> hops[i] != hops[j],
        forall|i: int|
            0 <= i < used.len() ==> {
                let k = #[trigger] used[i];
                &&& 0 <= k < snapshot.links@.len()
                &&& snapshot.links@[k].from.0@ == hops[i]
                &&& snapshot.links@[k].to.0@ == hops[i + 1]
                &&& snapshot.links@[k].reachable
                &&& allowed.len() == 0 || exists|p: int|
                    0 <= p < allowed.len() && (#[trigger] allowed[p]).0@
                        == snapshot.links@[k].protocol.0@
            },
    ensures
        r.len() > 0,
        ({
            let cost = used.fold_left(
                0nat,
                |sum: nat, k: int| (sum + scorer.cost(snapshot.links@[k]@)) as nat,
            );
            &&& r[0].score <= cost
            &&& (exists|j: int|
                0 <= j < r.len() && r[j].score <= cost && (#[trigger] r[j]).hops@.len()
                    == hops.len() && forall|i: int|
                    0 <= i < hops.len() ==> (#[trigger] r[j].hops@[i]).0@ == hops[i]) || (r.len()
                == (if limit < 32 {
                limit as int
            } else {
                32
            }) && forall|j: int| 0 <= j < r.len() ==> (#[trigger] r[j]).score <= cost)
        }),
{
    let links = snapshot@.links;
    let names = allowed.map_values(|p: ProtocolId| p@);
    assert(hops.no_duplicates()) by {
        assert forall|i: int, j: int|
            0 <= i < hops.len() && 0 <= j < hops.len() && i != j implies hops[i] != hops[j] by {
            if i < j {
            } else {
                assert(hops[j] != hops[i]);
            }
        }
    }
    assert forall|i: int| 0 <= i < used.len() implies #[trigger] bridges(
        links,
        request.allowed,
        hops,
        used,
        i,
    ) by {
        let k = used[i];
        lemma_link_fields(snapshot, k);
        if allowed.len() > 0 {
            let p = choose|p: int|
                0 <= p < allowed.len() && (#[trigger] allowed[p]).0@
                    == snapshot.links@[k].protocol.0@;
            assert(names[p] == allowed[p]@);
            assert(names.contains(links[k].protocol));
        } else {
            assert(names.len() == 0);
        }
    }
    assert(is_route(links, request, hops, used));
    lemma_cost_is_a_sum(scorer, snapshot, used);
    let cost = route_cost(scorer, links, used);
    if offered_at(r, hops, cost) {
        let j = choose|j: int| 0 <= j < r.len() && (#[trigger] r[j]).names() == hops && r[j].score
            <= cost;
        assert(r[j].names().len() == r[j].hops@.len());
        assert forall|i: int| 0 <= i < hops.len() implies (#[trigger] r[j].hops@[i]).0@
            == hops[i] by {
            assert(r[j].names()[i] == r[j].hops@[i]@);
        }
        if j > 0 {
            assert(r[0].score <= r[j].score);
        }
    }
}

/// No way is overlooked: any loop-free sequence of links from the source to
/// the target, each reachable and of an allowed protocol, no more of them than
/// the request says, makes the plan non-empty. It is listed at no more than the
/// sum of its costs, or the list is full of routes that cost no more.
pub proof fn law_every_short_way_counts<S: RouteScorer>(
    scorer: S,
    snapshot: GraphSnapshot,
    request: RouteRequest,
    limit: usize,
    r: Seq<RouteCandidate>,
    hops: Seq<Seq<char>>,
    used: Seq<int>,
)
    requires
        ranking(scorer, snapshot@.links, request@, limit as nat, r),
        limit > 0,
        used.len() <= request.max_hops,
        used.len() <= 32,
        hops.len() == used.len() + 1,
        hops[0] == request.source.0@,
        hops[used.len() as int] == request.target.0@,
        forall|i: int, j: int| 0 <= i < j < hops.len() ==> hops[i] != hops[j],
        forall|i: int|
            0 <= i < used.len() ==> {
                let k = #[trigger] used[i];
                &&& 0 <= k < snapshot.links@.len()
                &&& snapshot.links@[k].from.0@ == hops[i]
                &&& snapshot.links@[k].to.0@ == hops[i + 1]
                &&& snapshot.links@[k].reachable
                &&& request.allowed_protocols@.len() == 0 || exists|p: int|
                    0 <= p < request.allowed_protocols@.len() && (
                    #[trigger] request.allowed_protocols@[p]).0@ == snapshot.links@[k].protocol.0@
            },
    ensures
        r.len() > 0,
        ({
            let cost = used.fold_left(
                0nat,
                |sum: nat, k: int| (sum + scorer.cost(snapshot.links@[k]@)) as nat,
            );
            &&& r[0].score <= cost
            &&& (exists|j: int|
                0 <= j < r.len() && r[j].score <= cost && (#[trigger] r[j]).hops@.len()
                    == hops.len() && forall|i: int|
                    0 <= i < hops.len() ==> (#[trigger] r[j].hops@[i]).0@ == hops[i]) || (r.len()
                == (if limit < 32 {
                limit as int
            } else {
                32
            }) && forall|j: int| 0 <= j < r.len() ==> (#[trigger] r[j]).score <= cost)
        }),
{
    lemma_short_way(
        scorer,
        snapshot,
        request@,
        request.allowed_protocols@,
        limit as nat,
        r,
        hops,
        used,
    );
}

/// Nothing but ways is planned: each route starts at the source, ends at the
/// target, visits no node twice and goes over links that are there, reachable
/// and of an allowed protocol, no more of them than the request says. Its
/// score is the sum of their costs, its protocol that of the last of them. The
/// list is no longer than asked for, cheapest first, and without repetition.
pub proof fn law_only_ways_are_planned<S: RouteScorer>(
    scorer: S,
    snapshot: GraphSnapshot,
    request: RouteRequest,
    limit: usize,
    r: Seq<RouteCandidate>,
    j: int,
) -> (used: Seq<int>)
    requires
        ranking(scorer, snapshot@.links, request@, limit as nat, r),
        0 <= j < r.len(),
    ensures
        r.len() <= limit,
        r.len() <= 32,
        forall|i: int| 0 <= i < j ==> (#[trigger] r[i]).score <= r[j].score,
        forall|i: int|
            0 <= i < j && (#[trigger] r[i]).hops@.len() == r[j].hops@.len() ==> exists|h: int|
                0 <= h < r[j].hops@.len() && (#[trigger] r[i].hops@[h]).0@ != r[j].hops@[h].0@,
        r[j].hops@.len() == used.len() + 1,
        used.len() <= request.max_hops,
        used.len() <= 32,
        r[j].hops@[0].0@ == request.source.0@,
        r[j].hops@[used.len() as int].0@ == request.target.0@,
        forall|a: int, b: int|
            0 <= a < b < r[j].hops@.len() ==> (#[trigger] r[j].hops@[a]).0@ != (
            #[trigger] r[j].hops@[b]).0@,
        forall|i: int|
            0 <= i < used.len() ==> {
                let k = #[trigger] used[i];
                &&& 0 <= k < snapshot.links@.len()
                &&& snapshot.links@[k].from.0@ == r[j].hops@[i].0@
                &&& snapshot.links@[k].to.0@ == r[j].hops@[i + 1].0@
                &&& snapshot.links@[k].reachable
                &&& request.allowed_protocols@.len() == 0 || exists|p: int|
                    0 <= p < request.allowed_protocols@.len() && (
                    #[trigger] request.allowed_protocols@[p]).0@ == snapshot.links@[k].protocol.0@
            },
        r[j].score == used.fold_left(
            0nat,
            |sum: nat, k: int| (sum + scorer.cost(snapshot.links@[k]@)) as nat,
        ),
        used.len() > 0 ==> r[j].protocol.0@ == snapshot.links@[used[used.len() - 1]].protocol.0@,
        used.len() == 0 ==> r[j].protocol.0@ == "radii"@,
{
    let links = snapshot@.links;
    let c = r[j];
    assert(admitted(scorer, links, request@, c));
    let used = choose|used: Seq<int>| describes(scorer, links, request@, c, used);
    let names = c.names();
    let allowed = request.allowed_protocols@.map_values(|p: ProtocolId| p@);
    assert(request@.allowed == allowed);
    assert(names.len() == c.hops@.len());
    assert forall|h: int| 0 <= h < names.len() implies names[h] == (#[trigger] c.hops@[h]).0@ by {
        assert(names[h] == c.hops@[h]@);
    }
    assert(names.last() == names[used.len() as int]);
    assert(links.len() == snapshot.links@.len()) by {
        assert(links == snapshot.links@.map_values(|l: Link| l@));
    }
    assert forall|i: int| 0 <= i < used.len() implies {
        let k = #[trigger] used[i];
        &&& 0 <= k < snapshot.links@.len()
        &&& snapshot.links@[k].from.0@ == r[j].hops@[i].0@
        &&& snapshot.links@[k].to.0@ == r[j].hops@[i + 1].0@
        &&& snapshot.links@[k].reachable
        &&& request.allowed_protocols@.len() == 0 || exists|p: int|
            0 <= p < request.allowed_protocols@.len() && (
            #[trigger] request.allowed_protocols@[p]).0@ == snapshot.links@[k].protocol.0@
    } by {
        let k = used[i];
        assert(bridges(links, request@.allowed, names, used, i));
        lemma_link_fields(snapshot, k);
        assert(names[i] == c.hops@[i].0@ && names[i + 1] == c.hops@[i + 1].0@);
        if request.allowed_protocols@.len() > 0 {
            assert(allowed.contains(links[k].protocol));
            let p = allowed.index_of(links[k].protocol);
            assert(allowed[p] == request.allowed_protocols@[p]@);
            assert(request.allowed_protocols@[p].0@ == snapshot.links@[k].protocol.0@);
        }
    }
    lemma_cost_is_a_sum(scorer, snapshot, used);
    if used.len() > 0 {
        let k = used[used.len() - 1];
        assert(0 <= k < snapshot.links@.len());
        lemma_link_fields(snapshot, k);
    }
    assert forall|a: int, b: int| 0 <= a < b < c.hops@.len() implies (#[trigger] c.hops@[a]).0@
        != (#[trigger] c.hops@[b]).0@ by {
        assert(names[a] != names[b]);
    }
    assert forall|i: int|
        0 <= i < j && (#[trigger] r[i]).hops@.len() == c.hops@.len() implies exists|h: int|
        0 <= h < c.hops@.len() && (#[trigger] r[i].hops@[h]).0@ != c.hops@[h].0@ by {
        if forall|h: int| 0 <= h < c.hops@.len() ==> (#[trigger] r[i].hops@[h]).0@ == c.hops@[h].0@ {
            let other = r[i].names();
            assert forall|h: int| 0 <= h < names.len() implies other[h] == names[h] by {
                assert(other[h] == r[i].hops@[h]@);
                assert(r[i].hops@[h].0@ == c.hops@[h].0@);
            }
            assert(other =~= names);
            assert(r[i].names() != r[j].names());
        }
    }
    used
}

/// By default a link costs its round trip and 10 ms more; one that was never
/// measured costs as much as one of a second. So of two links the quicker one
/// is never dearer, and another hop always costs something.
pub proof fn law_default_costs(a: Link, b: Link)
    ensures
        a.latency_ms matches Some(ms) ==> DefaultScorer.cost(a@) == ms + 10,
        a.latency_ms is None ==> DefaultScorer.cost(a@) == 1010,
        DefaultScorer.cost(a@) >= 10,
        a.latency_ms matches Some(x) && b.latency_ms matches Some(y) && x <= y
            ==> DefaultScorer.cost(a@) <= DefaultScorer.cost(b@),
        a.latency_ms matches Some(x) && x < 1000 && b.latency_ms is None ==> DefaultScorer.cost(a@)
            < DefaultScorer.cost(b@),
{
}

/// A reachable link straight to the target is a route, whatever else there is,
/// and the best route costs no more than it.
pub proof fn law_a_direct_link_is_a_route(
    snapshot: GraphSnapshot,
    request: RouteRequest,
    limit: usize,
    r: Seq<RouteCandidate>,
    k: int,
)
    requires
        ranking(DefaultScorer, snapshot@.links, request@, limit as nat, r),
        limit > 0,
        request.max_hops > 0,
        0 <= k < snapshot.links@.len(),
        snapshot.links@[k].from.0@ == request.source.0@,
        snapshot.links@[k].to.0@ == request.target.0@,
        request.source.0@ != request.target.0@,
        snapshot.links@[k].reachable,
        request.allowed_protocols@.len() == 0 || exists|p: int|
            0 <= p < request.allowed_protocols@.len() && (
            #[trigger] request.allowed_protocols@[p]).0@ == snapshot.links@[k].protocol.0@,
    ensures
        r.len() > 0,
        snapshot.links@[k].latency_ms matches Some(ms) ==> r[0].score <= ms + 10,
        snapshot.links@[k].latency_ms is None ==> r[0].score <= 1010,
{
    let hops = seq![request.source.0@, request.target.0@];
    let used = seq![k];
    assert(used.drop_last() =~= Seq::<int>::empty());
    let add = |sum: nat, k: int| (sum + DefaultScorer.cost(snapshot.links@[k]@)) as nat;
    reveal_with_fuel(Seq::fold_left, 2);
    assert(used.fold_left(0nat, add) == DefaultScorer.cost(snapshot.links@[k]@));
    law_every_short_way_counts(DefaultScorer, snapshot, request, limit, r, hops, used);
}

/// A graph of reports below the caps holds a link for each report, in order
/// and field by field, and nothing is dropped.
pub proof fn law_reports_are_links(
    graph: GraphSnapshot,
    reports: Seq<ReachabilityReport>,
    ends: Set<Seq<char>>,
)
    requires
        graph@ == SnapshotView::empty().offered_all(
            reports.map_values(|report: ReachabilityReport| report.link()),
        ),
        reports.len() <= 32_768,
        ends.finite(),
        ends.len() <= 4_096,
        forall|i: int|
            0 <= i < reports.len() ==> ends.contains((#[trigger] reports[i]).from@)
                && ends.contains(reports[i].target@),
    ensures
        graph.dropped_links@ == 0,
        graph.links@.len() == reports.len(),
        forall|i: int|
            0 <= i < reports.len() ==> {
                &&& (#[trigger] graph.links@[i]).from.0@ == reports[i].from@
                &&& graph.links@[i].to.0@ == reports[i].target@
                &&& graph.links@[i].protocol.0@ == reports[i].protocol@
                &&& graph.links@[i].reachable == reports[i].reachable
                &&& graph.links@[i].latency_ms == reports[i].rtt_ms
            },
{
    let all = reports.map_values(|report: ReachabilityReport| report.link());
    assert forall|i: int| 0 <= i < all.len() implies ends.contains((#[trigger] all[i]).from)
        && ends.contains(all[i].to) by {
        assert(all[i] == reports[i].link());
    }
    lemma_all_fit(all, ends);
    assert forall|i: int| 0 <= i < reports.len() implies {
        &&& (#[trigger] graph.links@[i]).from.0@ == reports[i].from@
        &&& graph.links@[i].to.0@ == reports[i].target@
        &&& graph.links@[i].protocol.0@ == reports[i].protocol@
        &&& graph.links@[i].reachable == reports[i].reachable
        &&& graph.links@[i].latency_ms == reports[i].rtt_ms
    } by {
        assert(graph.links@.map_values(|l: Link| l@)[i] == graph.links@[i]@);
        assert(all[i] == reports[i].link());
    }
    assert(graph@.links.len() == graph.links@.len());
}

/// What stays below the caps is held whole.
pub proof fn lemma_all_fit(all: Seq<LinkView>, ends: Set<Seq<char>>)
    requires
        all.len() <= 32_768,
        ends.finite(),
        ends.len() <= 4_096,
        forall|i: int|
            0 <= i < all.len() ==> ends.contains((#[trigger] all[i]).from) && ends.contains(
                all[i].to,
            ),
    ensures
        SnapshotView::empty().offered_all(all).links == all,
        SnapshotView::empty().offered_all(all).dropped == 0,
        SnapshotView::empty().offered_all(all).nodes.subset_of(ends),
    decreases all.len(),
{
    if all.len() > 0 {
        let init = all.drop_last();
        assert forall|i: int| 0 <= i < init.len() implies ends.contains((#[trigger] init[i]).from)
            && ends.contains(init[i].to) by {
            assert(init[i] == all[i]);
        }
        lemma_all_fit(init, ends);
        let before = SnapshotView::empty().offered_all(init);
        let last = all.last();
        assert(last == all[all.len() - 1]);
        let with = before.nodes.insert(last.from).insert(last.to);
        assert(with.subset_of(ends));
        vstd::set_lib::lemma_len_subset(before.nodes, ends);
        vstd::set_lib::lemma_len_subset(with, ends);
        assert(before.admits(last));
        assert(before.offered(last).links =~= all);
    } else {
        assert(SnapshotView::empty().offered_all(all).links =~= all);
    }
}

} // verus!
