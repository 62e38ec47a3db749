//! What a Head runs.

use crate::decision::{DecisionEngine, GraphRoutePolicy, Policy, Protocol};
use crate::head_config::{Config, GraphConfig, RadiiConfig, DEFAULT_ATTEMPT_TIMEOUT_MS, DEFAULT_RESPONSE_TIMEOUT_MS};
use crate::health::HealthWatch;
use crate::proto::copy_texts;
use crate::registry::{ProtocolRegistry, ProtocolRunner};
use crate::table::Table;
use vstd::prelude::*;

verus! {

/// What the HTTP side of a Head works with.
pub struct AppState {
    pub decision: DecisionEngine<Policy>,
    pub protocol: Protocol,
    pub attempt_timeout_ms: u64,
    pub response_timeout_ms: u64,
    pub health: HealthWatch,
}

/// The state for callers that set no timeouts.
pub fn default_state(decision: DecisionEngine<Policy>) -> (r: AppState)
    ensures
        r.decision == decision,
        r.protocol == Protocol::Http,
        r.attempt_timeout_ms == 3000,
        r.response_timeout_ms == 30_000,
        r.health.max_age_ns is None,
{
    state_with(decision, DEFAULT_ATTEMPT_TIMEOUT_MS, DEFAULT_RESPONSE_TIMEOUT_MS)
}

/// The state with these timeouts.
pub fn state_with(
    decision: DecisionEngine<Policy>,
    attempt_timeout_ms: u64,
    response_timeout_ms: u64,
) -> (r: AppState)
    ensures
        r.decision == decision,
        r.protocol == Protocol::Http,
        r.attempt_timeout_ms == attempt_timeout_ms,
        r.response_timeout_ms == response_timeout_ms,
        r.health.max_age_ns is None,
{
    AppState {
        decision,
        protocol: Protocol::Http,
        attempt_timeout_ms,
        response_timeout_ms,
        health: HealthWatch::none(),
    }
}

impl AppState {
    /// The state with health looking at what the Head depends on.
    pub fn with_health(self, health: HealthWatch) -> (r: Self)
        ensures
            r == (AppState { health, ..self }),
    {
        AppState {
            decision: self.decision,
            protocol: self.protocol,
            attempt_timeout_ms: self.attempt_timeout_ms,
            response_timeout_ms: self.response_timeout_ms,
            health,
        }
    }
}

/// The HTTP listener.
pub struct HttpRunner {
    pub bind: String,
    pub state: AppState,
}

impl HttpRunner {
    pub fn new(bind: String, state: AppState) -> (r: Self)
        ensures
            r.bind == bind,
            r.state == state,
    {
        HttpRunner { bind, state }
    }
}

impl ProtocolRunner for HttpRunner {
    open spec fn called(&self) -> Seq<char> {
        "http"@
    }

    fn name(&self) -> (r: &'static str) {
        "http"
    }
}

/// The bridge listener. Without a configuration it ends well at once.
pub struct RadiiRunner {
    pub config: Option<RadiiConfig>,
}

impl RadiiRunner {
    pub fn maybe_new(config: Option<RadiiConfig>) -> (r: Self)
        ensures
            r.config == config,
    {
        RadiiRunner { config }
    }
}

impl ProtocolRunner for RadiiRunner {
    open spec fn called(&self) -> Seq<char> {
        "radii"@
    }

    fn name(&self) -> (r: &'static str) {
        "radii"
    }
}

/// The poller of Crawl's graph. Without a configuration it ends well at once.
pub struct GraphPollRunner {
    pub config: Option<GraphConfig>,
}

impl GraphPollRunner {
    pub fn maybe_new(config: Option<GraphConfig>) -> (r: Self)
        ensures
            r.config == config,
    {
        GraphPollRunner { config }
    }
}

impl ProtocolRunner for GraphPollRunner {
    open spec fn called(&self) -> Seq<char> {
        "graph"@
    }

    fn name(&self) -> (r: &'static str) {
        "graph"
    }
}

/// Any of a Head's runners.
pub enum Runner {
    Http(HttpRunner),
    Radii(RadiiRunner),
    Graph(GraphPollRunner),
}

impl ProtocolRunner for Runner {
    open spec fn called(&self) -> Seq<char> {
        match self {
            Runner::Http(runner) => runner.called(),
            Runner::Radii(runner) => runner.called(),
            Runner::Graph(runner) => runner.called(),
        }
    }

    fn name(&self) -> (r: &'static str) {
        match self {
            Runner::Http(runner) => runner.name(),
            Runner::Radii(runner) => runner.name(),
            Runner::Graph(runner) => runner.name(),
        }
    }
}

/// A copy of a node map.
fn copy_nodes(map: &Table<Vec<String>>) -> (r: Table<Vec<String>>)
    ensures
        crate::head_config::node_map_view(r@) == crate::head_config::node_map_view(map@),
{
    let n: usize = map.len();
    let mut r: Table<Vec<String>> = Table::new();
    let mut i: usize = 0;
    let ghost keys = map.keys();
    while i < n
        invariant
            i <= n,
            n == keys.len(),
            keys == map.keys(),
            map.consistent(),
            forall|k: Seq<char>| #[trigger]
                r@.dom().contains(k) <==> exists|j: int| 0 <= j < i && #[trigger] keys[j] == k,
            forall|k: Seq<char>| #[trigger]
                r@.dom().contains(k) ==> map@.dom().contains(k) && crate::proto::texts(r@[k]@)
                    == crate::proto::texts(map@[k]@),
        decreases n - i,
    {
        let (key, value) = map.entry(i);
        let ghost before = r@;
        r.insert(key.clone(), copy_texts(value));
        assert forall|k: Seq<char>| #[trigger] r@.dom().contains(k) <==> exists|j: int|
            0 <= j < i + 1 && #[trigger] keys[j] == k by {
            if r@.dom().contains(k) {
                if k == keys[i as int] {
                } else {
                    assert(before.dom().contains(k));
                    let j = choose|j: int| 0 <= j < i && #[trigger] keys[j] == k;
                    assert(keys[j] == k);
                }
            }
            if exists|j: int| 0 <= j < i + 1 && #[trigger] keys[j] == k {
                let j = choose|j: int| 0 <= j < i + 1 && #[trigger] keys[j] == k;
                if j < i {
                    assert(keys[j] == k);
                    assert(before.dom().contains(k));
                }
            }
        }
        i += 1;
    }
    proof {
        assert forall|k: Seq<char>| #[trigger] map@.dom().contains(k) implies r@.dom().contains(
            k,
        ) by {
            let j = keys.index_of(k);
            assert(keys.contains(k));
            assert(keys[j] == k);
        }
        assert(crate::head_config::node_map_view(r@) =~= crate::head_config::node_map_view(map@));
    }
    r
}

/// Whether a policy is the one of a graph configuration.
pub open spec fn policy_of(policy: GraphRoutePolicy, config: GraphConfig) -> bool {
    &&& crate::head_config::node_map_view(policy.node_map@) == crate::head_config::node_map_view(
        config.node_map@,
    )
    &&& policy.source@ == config.source_node_id@
    &&& policy.allowed_protocols@.map_values(|p: crate::routing::ProtocolId| p@)
        == crate::proto::texts(config.allowed_protocols@)
    &&& policy.max_hops == config.max_hops
    &&& policy.max_candidates == config.max_candidates
}

/// The policy of a graph configuration.
pub fn graph_policy(config: &GraphConfig) -> (r: GraphRoutePolicy)
    ensures
        policy_of(r, *config),
{
    GraphRoutePolicy::new(
        copy_nodes(&config.node_map),
        config.source_node_id.clone(),
        copy_texts(&config.allowed_protocols),
        config.max_hops,
        config.max_candidates,
    )
}

/// Whether the decisions are those of the configuration.
pub open spec fn decides_by(policies: Seq<Policy>, config: Config) -> bool {
    match config.graph {
        None => crate::decision::configured(policies, config.routing, None),
        Some(graph) => exists|policy: GraphRoutePolicy| #[trigger]
            policy_of(policy, graph) && crate::decision::configured(
                policies,
                config.routing,
                Some(policy),
            ),
    }
}

/// What a Head runs: its HTTP listener, its bridge, its poller.
pub fn head_registry(config: Config) -> (r: ProtocolRegistry<Runner>)
    ensures
        r.runners@.len() == 3,
        r.runners@[0] is Http,
        r.runners@[0]->Http_0.bind == config.http.bind,
        decides_by(r.runners@[0]->Http_0.state.decision.policies@, config),
        r.runners@[0]->Http_0.state.health.max_age_ns == match config.graph {
            None => None,
            Some(graph) => Some(crate::health::stale_after(graph.poll_interval_ms)),
        },
        r.runners@[0]->Http_0.state.attempt_timeout_ms == 3000,
        r.runners@[0]->Http_0.state.response_timeout_ms == 30_000,
        r.runners@[1] == Runner::Radii(RadiiRunner { config: config.radii }),
        r.runners@[2] == Runner::Graph(GraphPollRunner { config: config.graph }),
{
    let policy: Option<GraphRoutePolicy> = match &config.graph {
        None => None,
        Some(graph) => Some(graph_policy(graph)),
    };
    let health: HealthWatch = match &config.graph {
        None => HealthWatch::none(),
        Some(graph) => HealthWatch::from_graph_config(graph.poll_interval_ms),
    };
    let decision: DecisionEngine<Policy> = DecisionEngine::from_config_with_graph(
        &config.routing,
        policy,
    );
    let state: AppState = default_state(decision).with_health(health);
    ProtocolRegistry::new().register(
        Runner::Http(HttpRunner::new(config.http.bind, state)),
    ).register(Runner::Radii(RadiiRunner::maybe_new(config.radii))).register(
        Runner::Graph(GraphPollRunner::maybe_new(config.graph)),
    )
}

/// The graph is asked with what the configuration says: the same hosts with the
/// same nodes, the same source, the same protocols and the same limits.
pub proof fn law_the_graph_is_asked_as_configured(policy: GraphRoutePolicy, config: GraphConfig)
    requires
        policy_of(policy, config),
    ensures
        policy.source.0@ == config.source_node_id@,
        policy.max_hops == config.max_hops,
        policy.max_candidates == config.max_candidates,
        policy.allowed_protocols@.len() == config.allowed_protocols@.len(),
        forall|i: int|
            0 <= i < config.allowed_protocols@.len() ==> (
            #[trigger] policy.allowed_protocols@[i]).0@ == config.allowed_protocols@[i]@,
        policy.node_map@.dom() == config.node_map@.dom(),
        forall|host: Seq<char>| #[trigger]
            config.node_map@.dom().contains(host) ==> policy.node_map@[host]@.len()
                == config.node_map@[host]@.len(),
        forall|host: Seq<char>, k: int|
            config.node_map@.dom().contains(host) && 0 <= k < config.node_map@[host]@.len() ==> (
            #[trigger] policy.node_map@[host]@[k])@ == config.node_map@[host]@[k]@,
{
    let asked = policy.allowed_protocols@.map_values(|p: crate::routing::ProtocolId| p@);
    let given = crate::proto::texts(config.allowed_protocols@);
    assert(asked == given);
    assert(asked.len() == given.len());
    assert forall|i: int| 0 <= i < config.allowed_protocols@.len() implies (
    #[trigger] policy.allowed_protocols@[i]).0@ == config.allowed_protocols@[i]@ by {
        assert(asked[i] == given[i]);
        assert(asked[i] == policy.allowed_protocols@[i]@);
    }
    let a = crate::head_config::node_map_view(policy.node_map@);
    let b = crate::head_config::node_map_view(config.node_map@);
    assert(a == b);
    assert forall|host: Seq<char>| policy.node_map@.dom().contains(host)
        == config.node_map@.dom().contains(host) by {
        crate::head_config::law_node_maps_show_every_name(policy.node_map@, host);
        crate::head_config::law_node_maps_show_every_name(config.node_map@, host);
        assert(a.dom().contains(host) == b.dom().contains(host));
    }
    assert(policy.node_map@.dom() =~= config.node_map@.dom());
    assert forall|host: Seq<char>| #[trigger]
        config.node_map@.dom().contains(host) implies policy.node_map@[host]@.len()
        == config.node_map@[host]@.len() by {
        assert(policy.node_map@.dom().contains(host));
        crate::head_config::law_node_maps_show_every_name(policy.node_map@, host);
        crate::head_config::law_node_maps_show_every_name(config.node_map@, host);
        assert(a[host] == b[host]);
    }
    assert forall|host: Seq<char>, k: int|
        config.node_map@.dom().contains(host) && 0 <= k
            < config.node_map@[host]@.len() implies (#[trigger] policy.node_map@[host]@[k])@
        == config.node_map@[host]@[k]@ by {
        assert(policy.node_map@.dom().contains(host));
        crate::head_config::law_node_maps_show_every_name(policy.node_map@, host);
        crate::head_config::law_node_maps_show_every_name(config.node_map@, host);
        assert(a[host][k] == b[host][k]);
    }
}

/// The engine of a Head asks the graph first where there is one, then the host
/// map, then the default backend, each with what the configuration says.
pub proof fn law_the_engine_is_as_configured(policies: Seq<Policy>, config: Config)
    requires
        decides_by(policies, config),
    ensures
        ({
            let k: int = if config.graph is Some {
                1
            } else {
                0
            };
            &&& policies.len() == k + 2
            &&& config.graph is Some ==> policies[0] is GraphRoute && policy_of(
                policies[0]->GraphRoute_0,
                config.graph->0,
            )
            &&& policies[k] is HostMap
            &&& policies[k]->HostMap_0.host_map@.dom() == config.routing.host_map@.dom()
            &&& forall|host: Seq<char>| #[trigger]
                config.routing.host_map@.dom().contains(host)
                    ==> policies[k]->HostMap_0.host_map@[host]@
                    == config.routing.host_map@[host]@
            &&& policies[k + 1] is Default
            &&& policies[k + 1]->Default_0.backend@ == config.routing.default_backend@
        }),
{
    let k: int = if config.graph is Some {
        1
    } else {
        0
    };
    let map = policies[k]->HostMap_0.host_map@;
    let given = config.routing.host_map@;
    let a = map.map_values(|s: String| s@);
    let b = given.map_values(|s: String| s@);
    assert(a == b);
    assert forall|host: Seq<char>| map.dom().contains(host) == given.dom().contains(host) by {
        assert(a.dom().contains(host) == map.dom().contains(host));
        assert(b.dom().contains(host) == given.dom().contains(host));
    }
    assert(map.dom() =~= given.dom());
    assert forall|host: Seq<char>| #[trigger] given.dom().contains(host) implies map[host]@
        == given[host]@ by {
        assert(a[host] == b[host]);
        assert(a[host] == map[host]@);
        assert(b[host] == given[host]@);
    }
}

/// The names of the runners.
pub proof fn law_runners_are_named(http: HttpRunner, radii: RadiiRunner, graph: GraphPollRunner)
    ensures
        Runner::Http(http).called() == "http"@,
        Runner::Radii(radii).called() == "radii"@,
        Runner::Graph(graph).called() == "graph"@,
{
}

} // verus!
