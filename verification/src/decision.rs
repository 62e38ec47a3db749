//! Which backend a request goes to.

use crate::graph::{node_ids, plan_backends, protocol_ids, GraphState};
use crate::head_config::RoutingConfig;
use crate::resolve::ResolvedRoute;
use crate::routing::{NodeId, ProtocolId};
use crate::table::Table;
use crate::upstream::{normalize_upstream, Walk};
use vstd::prelude::*;

verus! {

// ---------------------------------------------------------------------------
// Requests and decisions
// ---------------------------------------------------------------------------

#[derive(Debug, Clone, Copy, PartialEq, Eq)]
pub enum Protocol {
    Http,
    Other,
}

/// What is known of a request when its backend is decided.
pub struct DecisionInput<'a> {
    pub protocol: Protocol,
    pub protocol_label: Option<&'a str>,
    pub host: Option<&'a str>,
    /// The peer's address, in text.
    pub source: Option<&'a str>,
    pub destination_port: Option<u16>,
    pub attributes: &'a [(&'a str, &'a str)],
    /// Crawl's graph as it stands. `None` where it cannot be read.
    pub graph: Option<&'a GraphState>,
}

/// What a [`DecisionInput`] says.
pub struct InputView {
    pub protocol: Protocol,
    pub protocol_label: Option<Seq<char>>,
    pub host: Option<Seq<char>>,
    pub source: Option<Seq<char>>,
    pub destination_port: Option<u16>,
    pub attributes: Seq<(Seq<char>, Seq<char>)>,
    pub graph: Option<GraphState>,
}

/// What an optional text says.
pub open spec fn opt_str(s: Option<&str>) -> Option<Seq<char>> {
    match s {
        None => None,
        Some(t) => Some(t@),
    }
}

impl<'a> View for DecisionInput<'a> {
    type V = InputView;

    open spec fn view(&self) -> InputView {
        InputView {
            protocol: self.protocol,
            protocol_label: opt_str(self.protocol_label),
            host: opt_str(self.host),
            source: opt_str(self.source),
            destination_port: self.destination_port,
            attributes: self.attributes@.map_values(|a: (&str, &str)| (a.0@, a.1@)),
            graph: match self.graph {
                None => None,
                Some(g) => Some(*g),
            },
        }
    }
}

/// How a decided backend is reached. A node of the mesh is reached over a
/// chain, which needs its id; a configured backend has none and is dialed.
#[derive(Debug)]
pub enum BackendTarget {
    Chain(Vec<ResolvedRoute>),
    Direct(String),
}

pub enum TargetView {
    Chain(Seq<crate::resolve::RouteView>),
    Direct(Seq<char>),
}

impl View for BackendTarget {
    type V = TargetView;

    open spec fn view(&self) -> TargetView {
        match *self {
            BackendTarget::Chain(routes) => TargetView::Chain(
                crate::resolve::route_views(routes@),
            ),
            BackendTarget::Direct(addr) => TargetView::Direct(addr@),
        }
    }
}

#[derive(Debug, Clone, Copy, PartialEq, Eq)]
pub enum DecisionReason {
    GraphRoute,
    HostMatch,
    Default,
}

impl DecisionReason {
    /// The reason as it is reported.
    pub open spec fn text(self) -> Seq<char> {
        match self {
            DecisionReason::GraphRoute => "graph_route"@,
            DecisionReason::HostMatch => "host_map"@,
            DecisionReason::Default => "default"@,
        }
    }

    /// The reason as it is reported.
    pub fn label(&self) -> (r: &'static str)
        ensures
            r@ == self.text(),
    {
        match *self {
            DecisionReason::GraphRoute => "graph_route",
            DecisionReason::HostMatch => "host_map",
            DecisionReason::Default => "default",
        }
    }
}

#[derive(Debug)]
pub struct BackendDecision {
    pub target: BackendTarget,
    pub reason: DecisionReason,
}

pub struct DecisionView {
    pub target: TargetView,
    pub reason: DecisionReason,
}

impl View for BackendDecision {
    type V = DecisionView;

    open spec fn view(&self) -> DecisionView {
        DecisionView { target: self.target@, reason: self.reason }
    }
}

/// The address of a route's target, if the route has hops.
pub open spec fn end_of(route: crate::resolve::RouteView) -> Option<Seq<char>> {
    if route.hops.len() == 0 {
        None
    } else {
        Some(route.hops.last().addr)
    }
}

/// The addresses of the routes' targets, in order.
pub open spec fn ends_of(routes: Seq<crate::resolve::RouteView>) -> Seq<Seq<char>>
    decreases routes.len(),
{
    if routes.len() == 0 {
        Seq::empty()
    } else {
        match end_of(routes.last()) {
            None => ends_of(routes.drop_last()),
            Some(addr) => ends_of(routes.drop_last()).push(addr),
        }
    }
}

/// Whether there is a best route, and that route has hops.
pub open spec fn led(routes: Seq<crate::resolve::RouteView>) -> bool {
    routes.len() > 0 && routes[0].hops.len() > 0
}

impl TargetView {
    /// The address that is reported as the backend.
    pub open spec fn backend(self) -> Seq<char> {
        match self {
            TargetView::Chain(routes) => if led(routes) {
                routes[0].hops.last().addr
            } else {
                "unreachable"@
            },
            TargetView::Direct(addr) => addr,
        }
    }

    /// Every address that could be tried, best first. The backend leads.
    pub open spec fn candidates(self) -> Seq<Seq<char>> {
        match self {
            TargetView::Chain(routes) => if led(routes) {
                ends_of(routes)
            } else {
                seq!["unreachable"@] + ends_of(routes)
            },
            TargetView::Direct(addr) => seq![addr],
        }
    }
}

impl BackendDecision {
    /// The address that is tried first.
    pub fn backend(&self) -> (r: String)
        ensures
            r@ == self@.target.backend(),
    {
        match &self.target {
            BackendTarget::Chain(routes) => {
                if routes.len() > 0 {
                    let n: usize = routes[0].hops.len();
                    assert(crate::resolve::route_views(routes@)[0] == routes@[0]@);
                    if n > 0 {
                        return routes[0].hops[n - 1].addr.clone();
                    }
                }
                "unreachable".to_owned()
            },
            BackendTarget::Direct(addr) => addr.clone(),
        }
    }

    /// Every address that could be tried, best first. The backend is always
    /// the first.
    pub fn candidates(&self) -> (r: Vec<String>)
        ensures
            crate::proto::texts(r@) == self@.target.candidates(),
            r@.len() > 0,
            r@[0]@ == self@.target.backend(),
    {
        let mut r: Vec<String> = Vec::new();
        proof {
            law_backend_leads_the_candidates(self@.target);
        }
        match &self.target {
            BackendTarget::Chain(routes) => {
                let ghost views = crate::resolve::route_views(routes@);
                let is_led: bool = routes.len() > 0 && routes[0].hops.len() > 0;
                proof {
                    if routes@.len() > 0 {
                        assert(views[0] == routes@[0]@);
                    }
                }
                assert(is_led == led(views));
                if !is_led {
                    r.push("unreachable".to_owned());
                }
                let ghost lead = crate::proto::texts(r@);
                assert(lead =~= if led(views) {
                    Seq::<Seq<char>>::empty()
                } else {
                    seq!["unreachable"@]
                });
                let mut i: usize = 0;
                assert(views.take(0) =~= Seq::<crate::resolve::RouteView>::empty());
                assert(lead + ends_of(views.take(0)) =~= lead);
                while i < routes.len()
                    invariant
                        i <= routes@.len(),
                        views == crate::resolve::route_views(routes@),
                        crate::proto::texts(r@) == lead + ends_of(views.take(i as int)),
                    decreases routes@.len() - i,
                {
                    let ghost before = crate::proto::texts(r@);
                    assert(views.take(i + 1).drop_last() =~= views.take(i as int));
                    assert(views.take(i + 1).last() == routes@[i as int]@);
                    let n: usize = routes[i].hops.len();
                    if n > 0 {
                        let addr: String = routes[i].hops[n - 1].addr.clone();
                        r.push(addr);
                        assert(crate::proto::texts(r@) =~= before.push(addr@));
                        assert(before.push(addr@) =~= lead + ends_of(views.take(i + 1)));
                    }
                    i += 1;
                }
                assert(views.take(views.len() as int) =~= views);
                assert(crate::proto::texts(r@) =~= self@.target.candidates());
            },
            BackendTarget::Direct(addr) => {
                r.push(addr.clone());
                assert(crate::proto::texts(r@) =~= seq![addr@]);
            },
        }
        assert(crate::proto::texts(r@)[0] == r@[0]@);
        r
    }
}

proof fn lemma_ends_start(routes: Seq<crate::resolve::RouteView>)
    requires
        led(routes),
    ensures
        ends_of(routes).len() > 0,
        ends_of(routes)[0] == routes[0].hops.last().addr,
    decreases routes.len(),
{
    if routes.len() == 1 {
        assert(routes.drop_last() =~= Seq::<crate::resolve::RouteView>::empty());
        assert(ends_of(routes.drop_last()).len() == 0);
    } else {
        assert(routes.drop_last()[0] == routes[0]);
        lemma_ends_start(routes.drop_last());
    }
}

/// The backend is always the first of the candidates, whatever was decided.
pub proof fn law_backend_leads_the_candidates(target: TargetView)
    ensures
        target.candidates().len() > 0,
        target.candidates()[0] == target.backend(),
{
    if let TargetView::Chain(routes) = target {
        if led(routes) {
            lemma_ends_start(routes);
        }
    }
}

// ---------------------------------------------------------------------------
// Policies
// ---------------------------------------------------------------------------

/// The view of an optional decision.
pub open spec fn answer_view(answer: Option<BackendDecision>) -> Option<DecisionView> {
    match answer {
        None => None,
        Some(d) => Some(d@),
    }
}

/// One way to decide on a backend. `None` leaves the decision to the next
/// policy.
pub trait DecisionPolicy {
    /// The answers that the policy may give.
    spec fn allows(&self, input: InputView, answer: Option<DecisionView>) -> bool;

    fn evaluate(&self, input: &DecisionInput<'_>) -> (r: Option<BackendDecision>)
        ensures
            self.allows(input@, answer_view(r)),
    ;
}

/// Sends a host where the host map says.
#[derive(Debug)]
pub struct HostMapPolicy {
    pub host_map: Table<String>,
}

impl HostMapPolicy {
    pub fn new(host_map: Table<String>) -> (r: Self)
        ensures
            r.host_map == host_map,
    {
        HostMapPolicy { host_map }
    }

    /// What the host map says of a host.
    pub open spec fn says(&self, host: Option<Seq<char>>) -> Option<DecisionView> {
        if host is Some && self.host_map@.dom().contains(host->0) {
            Some(
                DecisionView {
                    target: TargetView::Direct(self.host_map@[host->0]@),
                    reason: DecisionReason::HostMatch,
                },
            )
        } else {
            None
        }
    }
}

impl DecisionPolicy for HostMapPolicy {
    open spec fn allows(&self, input: InputView, answer: Option<DecisionView>) -> bool {
        answer == self.says(input.host)
    }

    fn evaluate(&self, input: &DecisionInput<'_>) -> (r: Option<BackendDecision>) {
        match input.host {
            None => None,
            Some(host) => match self.host_map.get(host) {
                None => None,
                Some(backend) => Some(
                    BackendDecision {
                        target: BackendTarget::Direct(backend.clone()),
                        reason: DecisionReason::HostMatch,
                    },
                ),
            },
        }
    }
}

/// Sends everything to one backend.
#[derive(Debug)]
pub struct DefaultPolicy {
    pub backend: String,
}

impl DefaultPolicy {
    pub fn new(backend: String) -> (r: Self)
        ensures
            r.backend == backend,
    {
        DefaultPolicy { backend }
    }
}

impl DecisionPolicy for DefaultPolicy {
    open spec fn allows(&self, input: InputView, answer: Option<DecisionView>) -> bool {
        answer == Some(
            DecisionView {
                target: TargetView::Direct(self.backend@),
                reason: DecisionReason::Default,
            },
        )
    }

    fn evaluate(&self, _input: &DecisionInput<'_>) -> (r: Option<BackendDecision>) {
        Some(
            BackendDecision {
                target: BackendTarget::Direct(self.backend.clone()),
                reason: DecisionReason::Default,
            },
        )
    }
}

/// Sends a host to the nodes that may serve it, over the best routes that the
/// graph has at the time. A host without nodes, and nodes without a route,
/// are left to the next policy.
#[derive(Debug)]
pub struct GraphRoutePolicy {
    pub node_map: Table<Vec<String>>,
    pub source: NodeId,
    pub allowed_protocols: Vec<ProtocolId>,
    pub max_hops: usize,
    pub max_candidates: usize,
}

impl GraphRoutePolicy {
    pub fn new(
        node_map: Table<Vec<String>>,
        source_node_id: String,
        allowed_protocols: Vec<String>,
        max_hops: usize,
        max_candidates: usize,
    ) -> (r: Self)
        ensures
            r.node_map == node_map,
            r.source@ == source_node_id@,
            r.allowed_protocols@.map_values(|p: ProtocolId| p@) == crate::proto::texts(
                allowed_protocols@,
            ),
            r.max_hops == max_hops,
            r.max_candidates == max_candidates,
    {
        GraphRoutePolicy {
            node_map,
            source: NodeId(source_node_id),
            allowed_protocols: protocol_ids(&allowed_protocols),
            max_hops,
            max_candidates,
        }
    }

    /// Whether a host is mapped to nodes and there is a graph to look at.
    pub open spec fn looks(&self, input: InputView) -> bool {
        input.host is Some && self.node_map@.dom().contains(input.host->0) && input.graph is Some
    }

    /// Whether `routes` are the best routes to the nodes of the host.
    pub open spec fn finds(
        &self,
        input: InputView,
        routes: Seq<crate::resolve::RouteView>,
    ) -> bool {
        exists|targets: Seq<NodeId>| #[trigger]
            self.targeted(input, targets) && self.routed(input, targets, routes)
    }

    /// Whether `targets` are the nodes of the host.
    pub open spec fn targeted(&self, input: InputView, targets: Seq<NodeId>) -> bool {
        targets.map_values(|n: NodeId| n@) == crate::proto::texts(
            self.node_map@[input.host->0]@,
        )
    }

    /// Whether `routes` are the best routes to `targets`, each with hops.
    pub open spec fn routed(
        &self,
        input: InputView,
        targets: Seq<NodeId>,
        routes: Seq<crate::resolve::RouteView>,
    ) -> bool {
        &&& crate::resolve::offered(
            input.graph->0.snapshot@.links,
            input.graph->0.listen_addrs@,
            self.source@,
            targets,
            self.allowed_protocols@,
            self.max_hops as nat,
            self.max_candidates as nat,
            None,
            "relay"@,
            routes,
        )
        &&& forall|i: int| 0 <= i < routes.len() ==> (#[trigger] routes[i]).hops.len() > 0
    }
}

impl DecisionPolicy for GraphRoutePolicy {
    open spec fn allows(&self, input: InputView, answer: Option<DecisionView>) -> bool {
        match answer {
            None => !self.looks(input) || self.finds(input, Seq::empty()),
            Some(d) => {
                &&& self.looks(input)
                &&& d.reason == DecisionReason::GraphRoute
                &&& d.target is Chain
                &&& d.target->Chain_0.len() > 0
                &&& self.finds(input, d.target->Chain_0)
            },
        }
    }

    fn evaluate(&self, input: &DecisionInput<'_>) -> (r: Option<BackendDecision>) {
        let host: &str = match input.host {
            None => {
                return None;
            },
            Some(host) => host,
        };
        let names: &Vec<String> = match self.node_map.get(host) {
            None => {
                return None;
            },
            Some(names) => names,
        };
        let state: &GraphState = match input.graph {
            None => {
                return None;
            },
            Some(state) => state,
        };
        let targets: Vec<NodeId> = node_ids(names);
        let routes: Vec<ResolvedRoute> = plan_backends(
            state,
            &self.source,
            targets.as_slice(),
            self.allowed_protocols.as_slice(),
            self.max_hops,
            self.max_candidates,
        );
        proof {
            let views = crate::resolve::route_views(routes@);
            assert forall|i: int| 0 <= i < views.len() implies (#[trigger] views[i]).hops.len()
                > 0 by {
                assert(routes@[i].hops@.len() > 0);
            }
            assert(self.targeted(input@, targets@));
            assert(self.routed(input@, targets@, views));
            if routes@.len() == 0 {
                assert(views =~= Seq::<crate::resolve::RouteView>::empty());
            }
        }
        if routes.len() == 0 {
            return None;
        }
        Some(
            BackendDecision {
                target: BackendTarget::Chain(routes),
                reason: DecisionReason::GraphRoute,
            },
        )
    }
}

/// Any of the built-in policies.
#[derive(Debug)]
pub enum Policy {
    GraphRoute(GraphRoutePolicy),
    HostMap(HostMapPolicy),
    Default(DefaultPolicy),
}

impl DecisionPolicy for Policy {
    open spec fn allows(&self, input: InputView, answer: Option<DecisionView>) -> bool {
        match self {
            Policy::GraphRoute(policy) => policy.allows(input, answer),
            Policy::HostMap(policy) => policy.allows(input, answer),
            Policy::Default(policy) => policy.allows(input, answer),
        }
    }

    fn evaluate(&self, input: &DecisionInput<'_>) -> (r: Option<BackendDecision>) {
        match self {
            Policy::GraphRoute(policy) => policy.evaluate(input),
            Policy::HostMap(policy) => policy.evaluate(input),
            Policy::Default(policy) => policy.evaluate(input),
        }
    }
}

// ---------------------------------------------------------------------------
// The engine
// ---------------------------------------------------------------------------

/// Asks its policies in order; the first answer counts.
pub struct DecisionEngine<P: DecisionPolicy> {
    pub policies: Vec<P>,
}

/// What is decided when no policy answers.
pub open spec fn unmatched() -> DecisionView {
    DecisionView {
        target: TargetView::Direct("unreachable"@),
        reason: DecisionReason::Default,
    }
}

/// Whether the first `n` policies may all decline.
pub open spec fn declined<P: DecisionPolicy>(policies: Seq<P>, input: InputView, n: int) -> bool {
    forall|i: int| 0 <= i < n ==> (#[trigger] policies[i]).allows(input, None)
}

/// Whether the policy at `i` decides so, after all before it declined.
pub open spec fn decided_at<P: DecisionPolicy>(
    policies: Seq<P>,
    input: InputView,
    decision: DecisionView,
    i: int,
) -> bool {
    &&& 0 <= i < policies.len()
    &&& declined(policies, input, i)
    &&& policies[i].allows(input, Some(decision))
}

/// Whether the policies decide so.
pub open spec fn decided<P: DecisionPolicy>(
    policies: Seq<P>,
    input: InputView,
    decision: DecisionView,
) -> bool {
    ||| exists|i: int| decided_at(policies, input, decision, i)
    ||| declined(policies, input, policies.len() as int) && decision == unmatched()
}

impl<P: DecisionPolicy> DecisionEngine<P> {
    /// An engine without policies.
    pub fn new() -> (r: Self)
        ensures
            r.policies@.len() == 0,
    {
        DecisionEngine { policies: Vec::new() }
    }

    /// The engine with one more policy, asked after the others.
    pub fn with_policy(self, policy: P) -> (r: Self)
        ensures
            r.policies@ == self.policies@.push(policy),
    {
        let mut policies: Vec<P> = self.policies;
        policies.push(policy);
        DecisionEngine { policies }
    }

    /// Decides on a backend.
    pub fn decide(&self, input: DecisionInput<'_>) -> (r: BackendDecision)
        ensures
            decided(self.policies@, input@, r@),
    {
        let mut i: usize = 0;
        while i < self.policies.len()
            invariant
                i <= self.policies@.len(),
                declined(self.policies@, input@, i as int),
            decreases self.policies@.len() - i,
        {
            let answer: Option<BackendDecision> = self.policies[i].evaluate(&input);
            if let Some(decision) = answer {
                assert(decided_at(self.policies@, input@, decision@, i as int));
                return decision;
            }
            i += 1;
        }
        BackendDecision {
            target: BackendTarget::Direct("unreachable".to_owned()),
            reason: DecisionReason::Default,
        }
    }
}

impl<P: DecisionPolicy> Default for DecisionEngine<P> {
    fn default() -> (r: Self)
        ensures
            r.policies@.len() == 0,
    {
        DecisionEngine::new()
    }
}

/// A copy of a host map.
fn copy_hosts(map: &Table<String>) -> (r: Table<String>)
    ensures
        r@.map_values(|s: String| s@) == map@.map_values(|s: String| s@),
{
    let n: usize = map.len();
    let mut r: Table<String> = Table::new();
    let mut i: usize = 0;
    let ghost keys = map.keys();
    while i < n
        invariant
            i <= n,
            n == keys.len(),
            keys == map.keys(),
            map.consistent(),
            forall|k: Seq<char>| #[trigger]
                r@.dom().contains(k) <==> exists|j: int| 0 <= j < i && #[trigger] keys[j] == k,
            forall|k: Seq<char>| #[trigger]
                r@.dom().contains(k) ==> map@.dom().contains(k) && r@[k]@ == map@[k]@,
        decreases n - i,
    {
        let (key, value) = map.entry(i);
        let ghost before = r@;
        r.insert(key.clone(), value.clone());
        assert forall|k: Seq<char>| #[trigger] r@.dom().contains(k) <==> exists|j: int|
            0 <= j < i + 1 && #[trigger] keys[j] == k by {
            if r@.dom().contains(k) {
                if k == keys[i as int] {
                } else {
                    assert(before.dom().contains(k));
                    let j = choose|j: int| 0 <= j < i && #[trigger] keys[j] == k;
                    assert(keys[j] == k);
                }
            }
            if exists|j: int| 0 <= j < i + 1 && #[trigger] keys[j] == k {
                let j = choose|j: int| 0 <= j < i + 1 && #[trigger] keys[j] == k;
                if j < i {
                    assert(keys[j] == k);
                    assert(before.dom().contains(k));
                }
            }
        }
        i += 1;
    }
    proof {
        assert forall|k: Seq<char>| #[trigger] map@.dom().contains(k) implies r@.dom().contains(
            k,
        ) by {
            let j = keys.index_of(k);
            assert(keys.contains(k));
            assert(keys[j] == k);
        }
        assert(r@.map_values(|s: String| s@) =~= map@.map_values(|s: String| s@));
    }
    r
}

impl DecisionEngine<Policy> {
    /// The engine of a static configuration: the host map, then the default.
    pub fn from_config(config: &RoutingConfig) -> (r: Self)
        ensures
            configured(r.policies@, *config, None),
    {
        DecisionEngine::from_config_with_graph(config, None)
    }

    /// The same, with the graph asked first where there is one.
    pub fn from_config_with_graph(
        config: &RoutingConfig,
        graph_policy: Option<GraphRoutePolicy>,
    ) -> (r: Self)
        ensures
            configured(r.policies@, *config, graph_policy),
    {
        let mut engine: DecisionEngine<Policy> = DecisionEngine::new();
        if let Some(policy) = graph_policy {
            engine = engine.with_policy(Policy::GraphRoute(policy));
        }
        engine.with_policy(Policy::HostMap(HostMapPolicy::new(copy_hosts(&config.host_map)))).with_policy(
            Policy::Default(DefaultPolicy::new(config.default_backend.clone())),
        )
    }
}

/// Whether the policies are those of a configuration: the graph's where there
/// is one, the host map's, the default's.
pub open spec fn configured(
    policies: Seq<Policy>,
    config: RoutingConfig,
    graph: Option<GraphRoutePolicy>,
) -> bool {
    let k: int = if graph is Some {
        1
    } else {
        0
    };
    &&& policies.len() == k + 2
    &&& (graph matches Some(g) ==> policies[0] == Policy::GraphRoute(g))
    &&& policies[k] is HostMap
    &&& policies[k]->HostMap_0.host_map@.map_values(|s: String| s@)
        == config.host_map@.map_values(|s: String| s@)
    &&& policies[k + 1] is Default
    &&& policies[k + 1]->Default_0.backend@ == config.default_backend@
}

/// A chain that the built-in policies decide on has a best route, and that
/// route has hops: its backend is an address.
pub proof fn law_decisions_are_led(
    policies: Seq<Policy>,
    input: InputView,
    decision: DecisionView,
)
    requires
        decided(policies, input, decision),
    ensures
        decision.target matches TargetView::Chain(routes) ==> led(routes),
{
    if exists|i: int| decided_at(policies, input, decision, i) {
        let i = choose|i: int| decided_at(policies, input, decision, i);
        assert(policies[i].allows(input, Some(decision)));
        if let Policy::GraphRoute(policy) = policies[i] {
            let routes = decision.target->Chain_0;
            assert(policy.finds(input, routes));
            let targets = choose|targets: Seq<NodeId>| #[trigger]
                policy.targeted(input, targets) && policy.routed(input, targets, routes);
            assert(routes[0].hops.len() > 0);
        }
    }
}

/// A host whose node can be reached is routed over the graph, whatever else
/// is configured for it.
pub proof fn law_reachable_hosts_are_routed(
    policies: Seq<Policy>,
    config: RoutingConfig,
    graph: GraphRoutePolicy,
    input: InputView,
    decision: DecisionView,
    t: int,
    hops: Seq<Seq<char>>,
    used: Seq<int>,
)
    requires
        configured(policies, config, Some(graph)),
        decided(policies, input, decision),
        graph.looks(input),
        graph.max_candidates > 0,
        0 <= t < graph.node_map@[input.host->0]@.len(),
        graph.source@ != graph.node_map@[input.host->0]@[t]@,
        crate::routing::is_route(
            input.graph->0.snapshot@.links,
            crate::resolve::request_for(
                graph.source@,
                graph.node_map@[input.host->0]@[t]@,
                graph.allowed_protocols@,
                graph.max_hops as nat,
            ),
            hops,
            used,
        ),
        crate::resolve::lookup(
            input.graph->0.listen_addrs@,
            graph.node_map@[input.host->0]@[t]@,
            "relay"@,
        ) is Some,
    ensures
        decision.reason == DecisionReason::GraphRoute,
        decision.target is Chain,
{
    assert(policies[0] == Policy::GraphRoute(graph));
    if policies[0].allows(input, None) {
        let none = Seq::<crate::resolve::RouteView>::empty();
        assert(graph.finds(input, none));
        let targets = choose|targets: Seq<NodeId>| #[trigger]
            graph.targeted(input, targets) && graph.routed(input, targets, none);
        let names = graph.node_map@[input.host->0]@;
        let views = targets.map_values(|n: NodeId| n@);
        assert(views == crate::proto::texts(names));
        assert(views.len() == targets.len());
        assert(views[t] == names[t]@);
        crate::resolve::law_reachable_targets_are_offered(
            input.graph->0.snapshot@.links,
            input.graph->0.listen_addrs@,
            graph.source@,
            targets,
            graph.allowed_protocols@,
            graph.max_hops as nat,
            graph.max_candidates as nat,
            None,
            "relay"@,
            none,
            t,
            hops,
            used,
        );
    }
}

/// A configured engine always answers: with a route of the graph if it has
/// one, otherwise with the host's own backend if the host is mapped, and with
/// the default otherwise.
pub proof fn law_configured_engine_answers(
    policies: Seq<Policy>,
    config: RoutingConfig,
    graph: Option<GraphRoutePolicy>,
    input: InputView,
    decision: DecisionView,
)
    requires
        configured(policies, config, graph),
        decided(policies, input, decision),
    ensures
        match decision.reason {
            DecisionReason::GraphRoute => graph is Some && decision.target is Chain,
            DecisionReason::HostMatch => input.host is Some && config.host_map@.dom().contains(
                input.host->0,
            ) && decision.target == TargetView::Direct(config.host_map@[input.host->0]@),
            DecisionReason::Default => !(input.host is Some && config.host_map@.dom().contains(
                input.host->0,
            )) && decision.target == TargetView::Direct(config.default_backend@),
        },
        graph is None && input.host is Some && config.host_map@.dom().contains(input.host->0)
            ==> decision.reason == DecisionReason::HostMatch,
{
    let k: int = if graph is Some {
        1
    } else {
        0
    };
    let hosts = policies[k]->HostMap_0.host_map@;
    let shown = hosts.map_values(|s: String| s@);
    let given = config.host_map@.map_values(|s: String| s@);
    assert(shown == given);
    assert(hosts.dom() =~= shown.dom());
    assert(config.host_map@.dom() =~= given.dom());
    if let Some(h) = input.host {
        if hosts.dom().contains(h) {
            assert(shown[h] == hosts[h]@);
            assert(given[h] == config.host_map@[h]@);
        }
    }
    if declined(policies, input, policies.len() as int) {
        assert(policies[k + 1].allows(input, None));
    }
    let i = choose|i: int| decided_at(policies, input, decision, i);
    assert(decided_at(policies, input, decision, i));
    if i == k + 1 {
        assert(policies[k].allows(input, None));
    }
}

// ---------------------------------------------------------------------------
// Acting on a decision
// ---------------------------------------------------------------------------

/// How to open a connection to a decided backend.
#[derive(Debug)]
pub enum Connect {
    /// Dial this address.
    Dial(String),
    /// Open the chains in order until one comes up. Trying again is safe only
    /// here: a chain that did not open has delivered nothing.
    Chains(Walk),
}

/// How the decided backend is reached.
pub fn connect_to(decision: &BackendDecision) -> (r: Connect)
    ensures
        match r {
            Connect::Dial(addr) => decision@.target is Direct && addr@
                == crate::upstream::normalized(decision@.target->Direct_0),
            Connect::Chains(walk) => decision@.target is Chain && walk == (Walk {
                failed: 0,
                candidates: walk.candidates,
            }) && walk.candidates == decision@.target->Chain_0.len(),
        },
{
    match &decision.target {
        BackendTarget::Direct(addr) => Connect::Dial(normalize_upstream(addr.as_str())),
        BackendTarget::Chain(routes) => Connect::Chains(Walk::start(routes.len())),
    }
}

/// What is reported of a decision.
#[derive(Debug)]
pub struct HeadResponse {
    pub source_ip: String,
    pub host: Option<String>,
    pub backend: String,
    pub candidates: Vec<String>,
    pub decision_reason: String,
}

/// Reports a decision to the peer that asked.
pub fn report(decision: &BackendDecision, source: &str, host: Option<String>) -> (r: HeadResponse)
    ensures
        r.source_ip@ == source@,
        r.host == host,
        r.backend@ == decision@.target.backend(),
        crate::proto::texts(r.candidates@) == decision@.target.candidates(),
        r.decision_reason@ == decision@.reason.text(),
{
    HeadResponse {
        source_ip: source.to_owned(),
        host,
        backend: decision.backend(),
        candidates: decision.candidates(),
        decision_reason: decision.reason.label().to_owned(),
    }
}

// ---------------------------------------------------------------------------
// What decisions are held to
// ---------------------------------------------------------------------------

/// The policies are asked in order and the first answer counts: those before
/// `i` had none, and `i` gave this one. Where none answers, the request goes
/// nowhere.
pub proof fn law_the_first_answer_counts<P: DecisionPolicy>(
    policies: Seq<P>,
    input: InputView,
    decision: DecisionView,
) -> (i: int)
    requires
        decided(policies, input, decision),
    ensures
        0 <= i <= policies.len(),
        forall|j: int| 0 <= j < i ==> (#[trigger] policies[j]).allows(input, None),
        i < policies.len() ==> policies[i].allows(input, Some(decision)),
        i == policies.len() ==> decision.target == TargetView::Direct("unreachable"@)
            && decision.reason == DecisionReason::Default,
{
    if exists|i: int| decided_at(policies, input, decision, i) {
        let i = choose|i: int| decided_at(policies, input, decision, i);
        assert(decided_at(policies, input, decision, i));
        i
    } else {
        policies.len() as int
    }
}

/// What is asked is what the request says, field by field.
pub proof fn law_requests_are_read_as_given(input: DecisionInput<'_>)
    ensures
        input@.host is Some == input.host is Some,
        input.host is Some ==> input@.host->0 == input.host->0@,
        input@.source is Some == input.source is Some,
        input.source is Some ==> input@.source->0 == input.source->0@,
        input@.graph is Some == input.graph is Some,
        input.graph is Some ==> input@.graph->0 == *(input.graph->0),
        input@.protocol == input.protocol,
        input@.destination_port == input.destination_port,
{
}

/// The host map answers for the hosts that it holds, with the address that it
/// holds for them, and for no other.
pub proof fn law_the_host_map_answers(
    policy: HostMapPolicy,
    input: InputView,
    answer: Option<BackendDecision>,
)
    requires
        policy.allows(input, answer_view(answer)),
    ensures
        answer is Some <==> input.host is Some && policy.host_map@.dom().contains(input.host->0),
        answer matches Some(d) ==> {
            &&& d.reason == DecisionReason::HostMatch
            &&& (d.target matches BackendTarget::Direct(addr) && addr@
                == policy.host_map@[input.host->0]@)
        },
{
}

/// The default backend answers for everything.
pub proof fn law_the_default_answers(
    policy: DefaultPolicy,
    input: InputView,
    answer: Option<BackendDecision>,
)
    requires
        policy.allows(input, answer_view(answer)),
    ensures
        answer matches Some(d) && d.reason == DecisionReason::Default && (
        d.target matches BackendTarget::Direct(addr) && addr@ == policy.backend@),
{
}

/// Where the graph answers, the request has a host that is mapped to nodes and
/// the graph can be read. There is a route and no more than were asked for, the
/// cheapest first; each ends at one of the nodes of the host, at the address
/// that the node has as a relay.
pub proof fn law_graph_answers_lead_to_the_host(
    policy: GraphRoutePolicy,
    input: DecisionInput<'_>,
    answer: Option<BackendDecision>,
    relay: crate::routing::RoleId,
)
    requires
        policy.allows(input@, answer_view(answer)),
        relay.0@ == "relay"@,
    ensures
        answer matches Some(d) ==> {
            &&& input.host is Some
            &&& input.graph is Some
            &&& policy.node_map@.dom().contains(input.host->0@)
            &&& d.reason == DecisionReason::GraphRoute
            &&& d.target is Chain
            &&& 0 < d.target->Chain_0@.len() <= policy.max_candidates
            &&& forall|i: int, j: int|
                0 <= i < j < d.target->Chain_0@.len() ==> (#[trigger] d.target->Chain_0@[i]).score
                    <= (#[trigger] d.target->Chain_0@[j]).score
            &&& forall|i: int|
                0 <= i < d.target->Chain_0@.len() ==> {
                    let hops = (#[trigger] d.target->Chain_0@[i]).hops@;
                    &&& hops.len() == 1
                    &&& exists|t: int|
                        0 <= t < policy.node_map@[input.host->0@]@.len() && (
                        #[trigger] policy.node_map@[input.host->0@]@[t])@ == hops[0].node_id.0@
                    &&& crate::resolve::lookup(
                        input.graph->0.listen_addrs@,
                        hops[0].node_id.0@,
                        "relay"@,
                    ) == Some(hops[0].addr@)
                }
        },
{
    if let Some(d) = answer {
        let asked = input@;
        let routes = d.target->Chain_0@;
        let views = crate::resolve::route_views(routes);
        assert(d@.target->Chain_0 == views);
        let targets = choose|targets: Seq<NodeId>| #[trigger]
            policy.targeted(asked, targets) && policy.routed(asked, targets, views);
        let names = targets.map_values(|n: NodeId| n@);
        let given = crate::proto::texts(policy.node_map@[asked.host->0]@);
        assert(names == given);
        assert(names.len() == given.len());
        crate::resolve::law_offers_lead_to_targets(
            asked.graph->0.snapshot,
            asked.graph->0.listen_addrs,
            policy.source,
            targets,
            policy.allowed_protocols@,
            policy.max_hops,
            policy.max_candidates,
            None,
            relay,
            routes,
        );
        assert forall|i: int| 0 <= i < routes.len() implies {
            let hops = (#[trigger] routes[i]).hops@;
            &&& hops.len() == 1
            &&& exists|t: int|
                0 <= t < policy.node_map@[input.host->0@]@.len() && (
                #[trigger] policy.node_map@[input.host->0@]@[t])@ == hops[0].node_id.0@
            &&& crate::resolve::lookup(
                input.graph->0.listen_addrs@,
                hops[0].node_id.0@,
                "relay"@,
            ) == Some(hops[0].addr@)
        } by {
            let hops = routes[i].hops@;
            let t = choose|t: int|
                0 <= t < targets.len() && (#[trigger] targets[t]).0@ == hops[hops.len()
                    - 1].node_id.0@;
            assert(names[t] == targets[t]@);
            assert(given[t] == policy.node_map@[asked.host->0]@[t]@);
        }
    }
}

/// The graph answers where a node of the host can be reached: along a way
/// without a loop, over links that are up and speak an allowed protocol, no
/// longer than the limit on hops, to a node with an address as a relay.
pub proof fn law_the_graph_answers_for_what_it_reaches(
    policy: GraphRoutePolicy,
    input: DecisionInput<'_>,
    answer: Option<BackendDecision>,
    relay: crate::routing::RoleId,
    t: int,
    hops: Seq<Seq<char>>,
    used: Seq<int>,
)
    requires
        policy.allows(input@, answer_view(answer)),
        relay.0@ == "relay"@,
        input.host is Some,
        input.graph is Some,
        policy.node_map@.dom().contains(input.host->0@),
        policy.max_candidates > 0,
        0 <= t < policy.node_map@[input.host->0@]@.len(),
        policy.source.0@ != policy.node_map@[input.host->0@]@[t]@,
        crate::resolve::lookup(
            input.graph->0.listen_addrs@,
            policy.node_map@[input.host->0@]@[t]@,
            "relay"@,
        ) is Some,
        used.len() <= policy.max_hops,
        used.len() <= 32,
        hops.len() == used.len() + 1,
        hops[0] == policy.source.0@,
        hops[used.len() as int] == policy.node_map@[input.host->0@]@[t]@,
        forall|i: int, j: int| 0 <= i < j < hops.len() ==> hops[i] != hops[j],
        forall|i: int|
            0 <= i < used.len() ==> {
                let k = #[trigger] used[i];
                &&& 0 <= k < input.graph->0.snapshot.links@.len()
                &&& input.graph->0.snapshot.links@[k].from.0@ == hops[i]
                &&& input.graph->0.snapshot.links@[k].to.0@ == hops[i + 1]
                &&& input.graph->0.snapshot.links@[k].reachable
                &&& policy.allowed_protocols@.len() == 0 || exists|p: int|
                    0 <= p < policy.allowed_protocols@.len() && (
                    #[trigger] policy.allowed_protocols@[p]).0@
                        == input.graph->0.snapshot.links@[k].protocol.0@
            },
    ensures
        answer is Some,
{
    if answer is None {
        let asked = input@;
        let none = Seq::<crate::resolve::RouteView>::empty();
        assert(policy.looks(asked));
        let targets = choose|targets: Seq<NodeId>| #[trigger]
            policy.targeted(asked, targets) && policy.routed(asked, targets, none);
        let names = targets.map_values(|n: NodeId| n@);
        let given = crate::proto::texts(policy.node_map@[asked.host->0]@);
        assert(names == given);
        assert(names.len() == given.len());
        assert(names[t] == targets[t]@);
        assert(given[t] == policy.node_map@[asked.host->0]@[t]@);
        let routes = Seq::<ResolvedRoute>::empty();
        assert(crate::resolve::route_views(routes) =~= none);
        crate::resolve::law_the_best_way_is_offered(
            asked.graph->0.snapshot,
            asked.graph->0.listen_addrs,
            policy.source,
            targets,
            policy.allowed_protocols@,
            policy.max_hops,
            policy.max_candidates,
            None,
            relay,
            routes,
            t,
            hops,
            used,
        );
    }
}

/// The graph's answer holds every way that was asked for: where there are so
/// many different ways to the nodes of the host, there are as many routes,
/// unless there are as many as the limit says, or 32.
pub proof fn law_graph_answers_hold_every_way(
    policy: GraphRoutePolicy,
    input: DecisionInput<'_>,
    d: BackendDecision,
    relay: crate::routing::RoleId,
    ways: Seq<(int, Seq<Seq<char>>, Seq<int>)>,
)
    requires
        policy.allows(input@, Some(d@)),
        relay.0@ == "relay"@,
        policy.max_candidates > 0,
        forall|a: int, b: int|
            0 <= a < b < ways.len() ==> (#[trigger] ways[a]).0 != (#[trigger] ways[b]).0
                || ways[a].1 != ways[b].1,
        forall|m: int|
            0 <= m < ways.len() ==> {
                let (t, hops, used) = #[trigger] ways[m];
                let node = policy.node_map@[input.host->0@]@[t]@;
                let links = input.graph->0.snapshot.links@;
                &&& 0 <= t < policy.node_map@[input.host->0@]@.len()
                &&& policy.source.0@ != node
                &&& crate::resolve::lookup(
                    input.graph->0.listen_addrs@,
                    node,
                    "relay"@,
                ) is Some
                &&& used.len() <= policy.max_hops
                &&& used.len() <= 32
                &&& hops.len() == used.len() + 1
                &&& hops[0] == policy.source.0@
                &&& hops[used.len() as int] == node
                &&& forall|i: int, j: int| 0 <= i < j < hops.len() ==> hops[i] != hops[j]
                &&& forall|i: int|
                    0 <= i < used.len() ==> {
                        let k = #[trigger] used[i];
                        &&& 0 <= k < links.len()
                        &&& links[k].from.0@ == hops[i]
                        &&& links[k].to.0@ == hops[i + 1]
                        &&& links[k].reachable
                        &&& policy.allowed_protocols@.len() == 0 || exists|p: int|
                            0 <= p < policy.allowed_protocols@.len() && (
                            #[trigger] policy.allowed_protocols@[p]).0@ == links[k].protocol.0@
                    }
            },
    ensures
        d.target is Chain,
        d.target->Chain_0@.len() >= ways.len() || d.target->Chain_0@.len()
            >= policy.max_candidates || d.target->Chain_0@.len() >= 32,
{
    let asked = input@;
    let routes = d.target->Chain_0@;
    let views = crate::resolve::route_views(routes);
    assert(d@.target->Chain_0 == views);
    let targets = choose|targets: Seq<NodeId>| #[trigger]
        policy.targeted(asked, targets) && policy.routed(asked, targets, views);
    let names = targets.map_values(|n: NodeId| n@);
    let given = crate::proto::texts(policy.node_map@[asked.host->0]@);
    assert(names == given);
    assert(names.len() == given.len());
    assert forall|t: int| 0 <= t < targets.len() implies (#[trigger] targets[t]).0@
        == policy.node_map@[asked.host->0]@[t]@ by {
        assert(names[t] == targets[t]@);
        assert(given[t] == policy.node_map@[asked.host->0]@[t]@);
    }
    crate::resolve::law_every_way_counts(
        asked.graph->0.snapshot,
        asked.graph->0.listen_addrs,
        policy.source,
        targets,
        policy.allowed_protocols@,
        policy.max_hops,
        policy.max_candidates,
        None,
        relay,
        routes,
        ways,
    );
}

proof fn lemma_ends(routes: Seq<crate::resolve::RouteView>)
    requires
        forall|i: int| 0 <= i < routes.len() ==> (#[trigger] routes[i]).hops.len() > 0,
    ensures
        ends_of(routes).len() == routes.len(),
        forall|i: int|
            0 <= i < routes.len() ==> #[trigger] ends_of(routes)[i] == routes[i].hops.last().addr,
    decreases routes.len(),
{
    if routes.len() > 0 {
        let init = routes.drop_last();
        assert forall|i: int| 0 <= i < init.len() implies (#[trigger] init[i]).hops.len() > 0 by {
            assert(init[i] == routes[i]);
        }
        lemma_ends(init);
        assert(routes.last() == routes[routes.len() - 1]);
        assert forall|i: int| 0 <= i < routes.len() implies #[trigger] ends_of(routes)[i]
            == routes[i].hops.last().addr by {
            if i < init.len() {
                assert(ends_of(init)[i] == init[i].hops.last().addr);
            }
        }
    }
}

/// The candidates of a decision are the ends of its routes, in order, and the
/// first of them is the backend. A direct address is the one candidate.
pub proof fn law_candidates_are_the_ends(target: BackendTarget)
    ensures
        match target {
            BackendTarget::Direct(addr) => target@.backend() == addr@ && target@.candidates()
                == seq![addr@],
            BackendTarget::Chain(routes) => {
                &&& routes@.len() > 0 && routes@[0].hops@.len() > 0 ==> target@.backend()
                    == routes@[0].hops@.last().addr@
                &&& routes@.len() == 0 || routes@[0].hops@.len() == 0 ==> target@.backend()
                    == "unreachable"@
                &&& routes@.len() > 0 && (forall|i: int|
                    0 <= i < routes@.len() ==> (#[trigger] routes@[i]).hops@.len() > 0) ==> {
                    &&& target@.candidates().len() == routes@.len()
                    &&& forall|i: int|
                        0 <= i < routes@.len() ==> target@.candidates()[i] == (
                        #[trigger] routes@[i]).hops@.last().addr@
                }
            },
        },
{
    if let BackendTarget::Chain(routes) = target {
        let views = crate::resolve::route_views(routes@);
        assert(views.len() == routes@.len());
        assert forall|i: int| 0 <= i < routes@.len() implies (#[trigger] views[i]).hops.len()
            == routes@[i].hops@.len() && (views[i].hops.len() > 0 ==> views[i].hops.last().addr
            == routes@[i].hops@.last().addr@) by {
            assert(views[i] == routes@[i]@);
        }
        if routes@.len() > 0 {
            assert(views[0].hops.len() == routes@[0].hops@.len());
        }
        if routes@.len() > 0 && (forall|i: int|
            0 <= i < routes@.len() ==> (#[trigger] routes@[i]).hops@.len() > 0) {
            assert forall|i: int| 0 <= i < views.len() implies (
            #[trigger] views[i]).hops.len() > 0 by {
                assert(routes@[i].hops@.len() > 0);
            }
            lemma_ends(views);
            assert forall|i: int| 0 <= i < routes@.len() implies target@.candidates()[i] == (
            #[trigger] routes@[i]).hops@.last().addr@ by {
                assert(ends_of(views)[i] == views[i].hops.last().addr);
            }
        }
    }
}

/// The names of the reasons.
pub proof fn law_reasons_are_named()
    ensures
        DecisionReason::GraphRoute.text() == "graph_route"@,
        DecisionReason::HostMatch.text() == "host_map"@,
        DecisionReason::Default.text() == "default"@,
{
}

/// A configured engine: where the graph has no answer, a host that is mapped
/// goes to its address, and any other to the default backend.
pub proof fn law_mapped_hosts_go_to_their_backend(
    policies: Seq<Policy>,
    config: RoutingConfig,
    graph: Option<GraphRoutePolicy>,
    input: DecisionInput<'_>,
    decision: BackendDecision,
)
    requires
        configured(policies, config, graph),
        decided(policies, input@, decision@),
    ensures
        decision.reason == DecisionReason::GraphRoute ==> graph is Some,
        decision.reason != DecisionReason::GraphRoute ==> decision.target is Direct
            && decision.target->Direct_0@ == if input.host is Some
            && config.host_map@.dom().contains(input.host->0@) {
            config.host_map@[input.host->0@]@
        } else {
            config.default_backend@
        },
        graph is None ==> decision.reason != DecisionReason::GraphRoute,
        graph matches Some(g) ==> (decision.reason != DecisionReason::GraphRoute ==> g.allows(
            input@,
            None,
        )),
{
    law_configured_engine_answers(policies, config, graph, input@, decision@);
    let i = law_the_first_answer_counts(policies, input@, decision@);
    if graph is Some && i > 0 {
        assert(policies[0].allows(input@, None));
    }
}

} // verus!
