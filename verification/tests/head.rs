//! A Head's decisions, its headers and its bridge.

use axum::http::{HeaderMap, HeaderValue};
use radii::bridge::{bridge, BridgeStep, Session, SessionStep};
use radii::crawl::CrawlState;
use radii::decision::{
    connect_to, report, BackendDecision, BackendTarget, Connect, DecisionEngine, DecisionInput,
    DecisionReason, DefaultPolicy, GraphRoutePolicy, HostMapPolicy, Policy, Protocol,
};
use radii::fetch_config::OneOrMany;
use radii::graph::GraphState;
use radii::head_config::{Config, GraphSection, HttpConfig, RadiiConfig, RoutingConfig, RoutingSection};
use radii::headers::{add_forwarded_headers, header_text, host_of, strip_hop_by_hop, value_text};
use radii::health::{health, Freshness, HealthWatch};
use radii::proto::{RadiiMessage, RelayedMessage};
use radii::registry::{ProtocolRegistry, ProtocolRunner, Supervisor, Verdict};
use radii::resolve::{ResolvedHop, ResolvedRoute};
use radii::routing::{GraphSnapshot, Link, NodeId, ProtocolId};
use radii::runners::{
    default_state, head_registry, state_with, GraphPollRunner, HttpRunner, RadiiRunner, Runner,
};
use radii::table::Table;
use radii::upstream::Walk;

fn input(host: Option<&str>) -> DecisionInput<'_> {
    DecisionInput {
        protocol: Protocol::Http,
        protocol_label: None,
        host,
        source: None,
        destination_port: None,
        attributes: &[],
        graph: None,
    }
}

fn seen<'a>(host: Option<&'a str>, graph: &'a GraphState) -> DecisionInput<'a> {
    DecisionInput {
        graph: Some(graph),
        ..input(host)
    }
}

fn routing(host_map: &[(&str, &str)]) -> RoutingConfig {
    RoutingSection {
        default_backend: "http://127.0.0.1:9000".into(),
        host_map: host_map
            .iter()
            .map(|(host, backend)| (host.to_string(), backend.to_string()))
            .collect(),
    }
    .resolve()
}

/// The first candidate is the backend on every path, also where no policy
/// matched.
#[test]
fn the_unmatched_sentinel_keeps_candidates_aligned_with_backend() {
    let decision = DecisionEngine::<Policy>::new().decide(input(Some("anything.example")));

    assert_eq!(decision.backend(), "unreachable");
    assert_eq!(
        decision.candidates().first(),
        Some(&decision.backend()),
        "candidates[0] must equal backend even when no policy matched"
    );
}

#[test]
fn prefers_host_map_over_default() {
    let engine = DecisionEngine::from_config(&routing(&[("example.com", "http://10.0.0.10:9000")]));

    let matched = engine.decide(input(Some("example.com")));
    assert_eq!(matched.backend(), "http://10.0.0.10:9000");
    assert!(matches!(matched.reason, DecisionReason::HostMatch));
    assert_eq!(
        matched.candidates().first(),
        Some(&matched.backend()),
        "candidates[0] must equal backend on a host-map hit"
    );

    let fallback = engine.decide(input(Some("other.example")));
    assert_eq!(fallback.backend(), "http://127.0.0.1:9000");
    assert!(matches!(fallback.reason, DecisionReason::Default));
    assert_eq!(
        fallback.candidates().first(),
        Some(&fallback.backend()),
        "candidates[0] must equal backend on the default fallback"
    );
}

#[test]
fn empty_engine_returns_unreachable() {
    let engine = DecisionEngine::<Policy>::new();
    let decision = engine.decide(input(None));
    assert_eq!(decision.backend(), "unreachable");
}

fn graph_state_with_reachable_route() -> GraphState {
    let mut snapshot = GraphSnapshot::new();
    snapshot.add_link(Link {
        from: NodeId("head".into()),
        to: NodeId("node-b".into()),
        protocol: ProtocolId::new("http"),
        reachable: true,
        latency_ms: Some(10),
    });
    let mut listen_addrs = Table::new();
    listen_addrs.insert(
        "node-b".to_string(),
        vec![("10.0.0.5:9000".to_string(), "relay".to_string())],
    );
    GraphState {
        snapshot,
        listen_addrs,
    }
}

fn graph_policy(hosts: &[(&str, &str)], protocols: &[&str]) -> GraphRoutePolicy {
    let mut node_map = Table::new();
    for (host, node) in hosts {
        node_map.insert(host.to_string(), vec![node.to_string()]);
    }
    GraphRoutePolicy::new(
        node_map,
        "head".to_string(),
        protocols.iter().map(|p| p.to_string()).collect(),
        4,
        3,
    )
}

#[test]
fn graph_route_takes_priority_over_host_map() {
    let state = graph_state_with_reachable_route();
    let engine = DecisionEngine::from_config_with_graph(
        &routing(&[("example.com", "http://10.0.0.10:9000")]),
        Some(graph_policy(&[("example.com", "node-b")], &["http"])),
    );

    let matched = engine.decide(seen(Some("example.com"), &state));
    assert_eq!(matched.backend(), "10.0.0.5:9000");
    assert!(matches!(matched.reason, DecisionReason::GraphRoute));
}

#[test]
fn a_static_host_map_hit_is_a_direct_target() {
    let engine = DecisionEngine::from_config(&routing(&[("example.com", "http://10.0.0.10:9000")]));

    let decision = engine.decide(input(Some("example.com")));
    assert!(matches!(decision.target, BackendTarget::Direct(_)));
    assert_eq!(decision.backend(), "http://10.0.0.10:9000");
    assert_eq!(
        decision.candidates(),
        vec!["http://10.0.0.10:9000".to_string()]
    );
}

#[test]
fn a_graph_route_is_a_chain_target_carrying_node_ids() {
    let state = graph_state_with_reachable_route();
    let policy = graph_policy(&[("example.com", "node-b")], &["http"]);
    let engine = DecisionEngine::new().with_policy(policy);

    let decision = engine.decide(seen(Some("example.com"), &state));
    let BackendTarget::Chain(routes) = &decision.target else {
        panic!("expected a chain target, got a direct one");
    };
    // The node id is what opening a chain needs and what a bare address
    // cannot carry.
    assert_eq!(routes[0].target().0, "node-b");
    assert_eq!(decision.backend(), routes[0].hops.last().unwrap().addr);
}

#[test]
fn graph_route_falls_through_when_host_unmapped() {
    let state = graph_state_with_reachable_route();
    let engine = DecisionEngine::from_config_with_graph(
        &routing(&[("example.com", "http://10.0.0.10:9000")]),
        Some(graph_policy(&[], &[])),
    );

    let fallback = engine.decide(seen(Some("example.com"), &state));
    assert_eq!(fallback.backend(), "http://10.0.0.10:9000");
    assert!(matches!(fallback.reason, DecisionReason::HostMatch));
}

#[test]
fn a_graph_that_cannot_be_read_falls_through() {
    let engine = DecisionEngine::from_config_with_graph(
        &routing(&[]),
        Some(graph_policy(&[("example.com", "node-b")], &["http"])),
    );
    let decision = engine.decide(input(Some("example.com")));
    assert!(matches!(decision.reason, DecisionReason::Default));
    let empty = GraphState::default();
    let decision = engine.decide(seen(Some("example.com"), &empty));
    assert!(matches!(decision.reason, DecisionReason::Default));
}

#[test]
fn policies_can_be_mixed_by_hand() {
    let mut host_map = Table::new();
    host_map.insert("h".to_string(), "b:1".to_string());
    let engine = DecisionEngine::default()
        .with_policy(Policy::HostMap(HostMapPolicy::new(host_map)))
        .with_policy(Policy::Default(DefaultPolicy::new("d:1".to_string())));
    assert_eq!(engine.decide(input(Some("h"))).backend(), "b:1");
    assert_eq!(engine.decide(input(None)).backend(), "d:1");
}

fn route(addr: Option<&str>, score: u128) -> ResolvedRoute {
    ResolvedRoute {
        hops: addr
            .iter()
            .map(|a| ResolvedHop {
                node_id: NodeId("n".into()),
                addr: a.to_string(),
            })
            .collect(),
        score,
    }
}

#[test]
fn head_reports_ranked_candidates() {
    // node-c is cheaper than node-b, so it ranks first whatever the order in
    // which the host maps them.
    let mut snapshot = GraphSnapshot::new();
    for (to, rtt) in [("node-b", 200), ("node-c", 20)] {
        snapshot.add_link(Link {
            from: NodeId("head".into()),
            to: NodeId(to.into()),
            protocol: ProtocolId::new("http"),
            reachable: true,
            latency_ms: Some(rtt),
        });
    }
    let mut listen_addrs = Table::new();
    listen_addrs.insert(
        "node-b".to_string(),
        vec![("10.0.0.11:9000".to_string(), "relay".to_string())],
    );
    listen_addrs.insert(
        "node-c".to_string(),
        vec![("10.0.0.12:9000".to_string(), "relay".to_string())],
    );
    let state = GraphState { snapshot, listen_addrs };
    let mut node_map = Table::new();
    node_map.insert(
        "site.example".to_string(),
        vec!["node-b".to_string(), "node-c".to_string()],
    );
    let policy = GraphRoutePolicy::new(
        node_map,
        "head".to_string(),
        vec!["http".to_string()],
        4,
        3,
    );
    let engine = DecisionEngine::from_config_with_graph(&routing(&[]), Some(policy));
    let decision = engine.decide(seen(Some("site.example"), &state));
    let shown = report(&decision, "127.0.0.1:5", Some("site.example".into()));
    assert_eq!(shown.candidates, vec!["10.0.0.12:9000", "10.0.0.11:9000"]);
    assert_eq!(shown.backend, shown.candidates[0]);
    assert_eq!(shown.decision_reason, "graph_route");
}

#[test]
fn a_report_skips_routes_without_hops() {
    let decision = BackendDecision {
        target: BackendTarget::Chain(vec![
            route(Some("a:1"), 1),
            route(None, 2),
            route(Some("b:1"), 3),
        ]),
        reason: DecisionReason::GraphRoute,
    };
    let shown = report(&decision, "127.0.0.1:5", Some("example.com".into()));
    assert_eq!(shown.backend, "a:1");
    assert_eq!(shown.candidates, vec!["a:1", "b:1"]);
    assert_eq!(shown.decision_reason, "graph_route");
    assert_eq!(shown.source_ip, "127.0.0.1:5");
    assert_eq!(shown.host.as_deref(), Some("example.com"));
    assert!(matches!(
        connect_to(&decision),
        Connect::Chains(Walk { failed: 0, candidates: 3 })
    ));
    assert_eq!(DecisionReason::HostMatch.label(), "host_map");
    assert_eq!(DecisionReason::Default.label(), "default");
}

#[test]
fn a_direct_backend_is_dialed_without_its_scheme() {
    let decision = BackendDecision {
        target: BackendTarget::Direct("http://10.0.0.10:9000".into()),
        reason: DecisionReason::HostMatch,
    };
    match connect_to(&decision) {
        Connect::Dial(addr) => assert_eq!(addr, "10.0.0.10:9000"),
        other => panic!("expected a dial, got {other:?}"),
    }
}

#[test]
fn strips_the_fixed_hop_by_hop_set() {
    let mut headers = HeaderMap::new();
    headers.insert("te", "trailers".parse().unwrap());
    headers.insert("upgrade", "websocket".parse().unwrap());
    headers.insert("x-keep", "yes".parse().unwrap());

    strip_hop_by_hop(&mut headers);

    assert!(headers.get("te").is_none());
    assert!(headers.get("upgrade").is_none());
    assert_eq!(headers.get("x-keep").unwrap(), "yes");
}

/// What `Connection` names is read before anything is taken out.
#[test]
fn strips_headers_named_by_connection_as_well_as_connection_itself() {
    let mut headers = HeaderMap::new();
    headers.insert("connection", "X-Hop-One, x-hop-two".parse().unwrap());
    headers.insert("x-hop-one", "a".parse().unwrap());
    headers.insert("x-hop-two", "b".parse().unwrap());
    headers.insert("x-survives", "c".parse().unwrap());

    strip_hop_by_hop(&mut headers);

    assert!(headers.get("connection").is_none());
    assert!(headers.get("x-hop-one").is_none(), "case-insensitive match");
    assert!(headers.get("x-hop-two").is_none());
    assert_eq!(headers.get("x-survives").unwrap(), "c");
}

#[test]
fn tolerates_a_malformed_connection_value() {
    let mut headers = HeaderMap::new();
    headers.insert("connection", "  , ,,  ".parse().unwrap());
    headers.insert("x-survives", "c".parse().unwrap());

    strip_hop_by_hop(&mut headers);

    assert!(headers.get("connection").is_none());
    assert_eq!(headers.get("x-survives").unwrap(), "c");
}

#[test]
fn every_connection_line_and_every_value_of_a_name_counts() {
    let mut headers = HeaderMap::new();
    headers.append("connection", "close".parse().unwrap());
    headers.append("connection", "x-second".parse().unwrap());
    headers.append("connection", HeaderValue::from_bytes(b"x-third\xff").unwrap());
    headers.append("x-second", "1".parse().unwrap());
    headers.append("x-second", "2".parse().unwrap());
    headers.append("x-third", "3".parse().unwrap());
    headers.append("x-other", "4".parse().unwrap());
    headers.append("x-other", "5".parse().unwrap());

    strip_hop_by_hop(&mut headers);

    assert!(!headers.contains_key("x-second"));
    assert!(headers.contains_key("x-third"), "what is no text names nothing");
    let others: Vec<_> = headers.get_all("x-other").iter().collect();
    assert_eq!(others, vec!["4", "5"]);
    let before = headers.len();
    strip_hop_by_hop(&mut headers);
    assert_eq!(headers.len(), before);
}

#[test]
fn strips_all_of_the_fixed_names() {
    let mut headers = HeaderMap::new();
    for name in [
        "connection",
        "keep-alive",
        "proxy-authenticate",
        "proxy-authorization",
        "te",
        "trailer",
        "transfer-encoding",
        "upgrade",
    ] {
        headers.insert(name, "x".parse().unwrap());
    }
    strip_hop_by_hop(&mut headers);
    assert!(headers.is_empty());
}

#[test]
fn forwards_host_and_strips_hop_by_hop_headers() {
    let mut headers = HeaderMap::new();
    headers.insert("host", "example.com".parse().unwrap());
    headers.insert("x-custom-hop", "secret".parse().unwrap());
    headers.insert("connection", "X-Custom-Hop".parse().unwrap());
    let host = host_of(&headers);
    assert_eq!(host.as_deref(), Some("example.com"));
    assert!(add_forwarded_headers(&mut headers, "127.0.0.1", host.as_deref()));
    strip_hop_by_hop(&mut headers);
    assert_eq!(headers.get("host").unwrap(), "example.com");
    assert!(!headers.contains_key("x-custom-hop"));
    assert!(!headers.contains_key("connection"));
    assert_eq!(headers.get("x-forwarded-for").unwrap(), "127.0.0.1");
    assert_eq!(headers.get("x-forwarded-proto").unwrap(), "http");
    assert_eq!(headers.get("x-forwarded-host").unwrap(), "example.com");
}

#[test]
fn appends_to_an_existing_forwarded_for_rather_than_replacing_it() {
    let mut headers = HeaderMap::new();
    headers.append("x-forwarded-for", "203.0.113.7".parse().unwrap());
    headers.append("x-forwarded-for", "198.51.100.1".parse().unwrap());
    assert!(add_forwarded_headers(&mut headers, "127.0.0.1", None));
    let chain: Vec<_> = headers.get_all("x-forwarded-for").iter().collect();
    assert_eq!(chain, vec!["203.0.113.7, 127.0.0.1"]);
    assert!(!headers.contains_key("x-forwarded-host"));
}

#[test]
fn a_text_that_is_no_header_value_is_not_forwarded() {
    let mut headers = HeaderMap::new();
    assert!(add_forwarded_headers(&mut headers, "10.0.0.1", Some("bad\nhost")));
    assert!(!headers.contains_key("x-forwarded-host"));
    assert!(add_forwarded_headers(&mut headers, "10.0.0.2", Some("h\u{e9}")));
    assert_eq!(headers.get("x-forwarded-host").unwrap().as_bytes(), "h\u{e9}".as_bytes());
    assert_eq!(
        header_text(&headers, "X-Forwarded-For").as_deref(),
        Some("10.0.0.1, 10.0.0.2")
    );
    assert_eq!(header_text(&headers, "x-forwarded-host"), None, "not visible ASCII");
    assert_eq!(header_text(&headers, "no such name"), None);
}

#[test]
fn a_value_is_text_only_if_it_is_visible_ascii() {
    assert_eq!(value_text(&b"a b\tc~".to_vec()).as_deref(), Some("a b\tc~"));
    assert_eq!(value_text(&vec![]).as_deref(), Some(""));
    assert_eq!(value_text(&vec![b'a', 0x7f]), None);
    assert_eq!(value_text(&vec![0x80]), None);
}

const SECOND: u128 = 1_000_000_000;

/// No graph: there is no freshness to report on.
#[test]
fn health_is_ok_when_no_graph_is_configured() {
    let answer = health(&HealthWatch::none(), Freshness::Never);
    assert_eq!(answer.code, 200);
    assert_eq!(answer.status, "ok");
    assert_eq!(answer.graph, "not_configured");
}

#[test]
fn health_is_ok_when_the_graph_poll_is_fresh() {
    let watch = HealthWatch::graph(30 * SECOND);
    let answer = health(&watch, Freshness::Aged(0));
    assert_eq!(answer.code, 200);
    assert_eq!(answer.status, "ok");
    assert_eq!(answer.graph, "fresh");
    assert_eq!(health(&watch, Freshness::Aged(30 * SECOND)).graph, "fresh");
}

#[test]
fn health_is_degraded_when_the_graph_poll_has_gone_stale() {
    let answer = health(&HealthWatch::graph(30 * SECOND), Freshness::Aged(120 * SECOND));
    assert_eq!(answer.code, 503, "a stale graph must not report healthy");
    assert_eq!(answer.status, "degraded");
    assert_eq!(answer.graph, "stale");
}

#[test]
fn health_is_degraded_before_the_first_successful_poll() {
    let answer = health(&HealthWatch::graph(30 * SECOND), Freshness::Never);
    assert_eq!(answer.code, 503);
    assert_eq!(answer.graph, "never_refreshed");
    let answer = health(&HealthWatch::graph(30 * SECOND), Freshness::Poisoned);
    assert_eq!(answer.code, 503);
    assert_eq!(answer.graph, "poisoned");
}

#[test]
fn a_graph_is_stale_after_three_missed_polls() {
    assert_eq!(HealthWatch::STALE_AFTER_INTERVALS, 3);
    assert_eq!(HealthWatch::from_graph_config(5000).max_age_ns, Some(15 * SECOND));
    assert_eq!(HealthWatch::from_graph_config(0).max_age_ns, Some(3_000_000));
    assert!(HealthWatch::from_graph_config(u64::MAX).max_age_ns.is_some());
    assert_eq!(HealthWatch::default().max_age_ns, None);
}

fn written_graph() -> GraphSection {
    GraphSection {
        crawl_upstream: "127.0.0.1:7100".into(),
        source_node_id: None,
        poll_interval_ms: None,
        allowed_protocols: None,
        max_hops: None,
        node_map: vec![
            (
                "example.com".to_string(),
                OneOrMany::Many(vec!["node-b".into(), "node-c".into()]),
            ),
            ("single.example.com".to_string(), OneOrMany::One("node-b".into())),
        ],
        max_candidates: None,
    }
}

#[test]
fn loads_graph_node_map_from_config() {
    let graph = written_graph().resolve();
    assert_eq!(
        graph.node_map.get("example.com").unwrap(),
        &vec!["node-b".to_string(), "node-c".to_string()]
    );
    assert_eq!(
        graph.node_map.get("single.example.com").unwrap(),
        &vec!["node-b".to_string()]
    );
    assert_eq!(graph.source_node_id, "head");
    assert_eq!(graph.poll_interval_ms, 5000);
    assert_eq!(graph.max_hops, 4);
    assert_eq!(graph.max_candidates, 3);
}

#[test]
fn loads_example_shape() {
    let routing = RoutingSection {
        default_backend: "http://127.0.0.1:9000".into(),
        host_map: vec![("example.com".into(), "http://10.0.0.10:9000".into())],
    }
    .resolve();
    assert_eq!(
        routing.host_map.get("example.com").unwrap(),
        "http://10.0.0.10:9000"
    );
    let registry = head_registry(Config {
        http: HttpConfig { bind: "127.0.0.1:8080".into() },
        radii: Some(RadiiConfig {
            bind: "127.0.0.1:7000".into(),
            crawl_upstream: "127.0.0.1:7100".into(),
        }),
        routing,
        graph: None,
        tls: None,
    });
    match &registry.runners[0] {
        Runner::Http(http) => {
            assert_eq!(http.bind, "127.0.0.1:8080");
            let decide = |host: &str| http.state.decision.decide(input(Some(host))).backend();
            assert_eq!(decide("example.com"), "http://10.0.0.10:9000");
            assert_eq!(decide("other.example"), "http://127.0.0.1:9000");
        }
        _ => panic!("the first runner serves http"),
    }
    match &registry.runners[1] {
        Runner::Radii(radii) => assert_eq!(
            radii.config.as_ref().unwrap().crawl_upstream,
            "127.0.0.1:7100"
        ),
        _ => panic!("the second runner bridges"),
    }
}

#[test]
fn a_head_runs_its_three_protocols_as_configured() {
    let config = Config {
        http: HttpConfig { bind: "127.0.0.1:8080".into() },
        radii: None,
        routing: routing(&[("h", "b:1")]),
        graph: Some(written_graph().resolve()),
        tls: None,
    };
    let registry = head_registry(config);
    let names: Vec<&str> = registry.runners.iter().map(|r| r.name()).collect();
    assert_eq!(names, vec!["http", "radii", "graph"]);
    match &registry.runners[0] {
        Runner::Http(http) => {
            assert_eq!(http.bind, "127.0.0.1:8080");
            assert_eq!(http.state.health.max_age_ns, Some(15 * SECOND));
            assert_eq!(http.state.decision.decide(input(Some("h"))).backend(), "b:1");
        }
        _ => panic!("the first runner serves http"),
    }
    match &registry.runners[2] {
        Runner::Graph(graph) => {
            let map = &graph.config.as_ref().unwrap().node_map;
            assert_eq!(map.len(), 2);
        }
        _ => panic!("the third runner polls"),
    }
}

#[test]
fn runners_and_states_keep_what_they_are_given() {
    let engine = || DecisionEngine::from_config(&routing(&[]));
    let state = default_state(engine());
    assert_eq!(state.attempt_timeout_ms, 3000);
    assert_eq!(state.response_timeout_ms, 30_000);
    let state = state_with(engine(), 5, 6).with_health(HealthWatch::graph(7));
    assert_eq!((state.attempt_timeout_ms, state.response_timeout_ms), (5, 6));
    assert_eq!(state.health.max_age_ns, Some(7));
    let runner = HttpRunner::new("b".to_string(), state);
    assert_eq!(runner.name(), "http");
    assert_eq!(runner.bind, "b");
    assert_eq!(RadiiRunner::maybe_new(None).name(), "radii");
    assert_eq!(GraphPollRunner::maybe_new(None).name(), "graph");
}

/// The order of registration does not decide whether a failure is noticed.
#[test]
fn a_later_runners_failure_surfaces_past_one_that_never_returns() {
    let registry = ProtocolRegistry::new()
        .register(Runner::Radii(RadiiRunner::maybe_new(None)))
        .register(Runner::Graph(GraphPollRunner::maybe_new(None)));
    assert_eq!(registry.runners[1].name(), "graph");
    let mut supervisor = registry.supervise();
    assert_eq!(supervisor.verdict(), Verdict::Wait);
    supervisor.ended(false);
    assert_eq!(supervisor.verdict(), Verdict::Abort);
}

#[test]
fn runners_that_all_succeed_join_cleanly() {
    let registry = ProtocolRegistry::default()
        .register(RadiiRunner::maybe_new(None))
        .register(RadiiRunner::maybe_new(None));
    let mut supervisor = registry.supervise();
    supervisor.ended(true);
    assert_eq!(supervisor.verdict(), Verdict::Wait);
    supervisor.ended(true);
    assert_eq!(supervisor.verdict(), Verdict::Done);
    assert_eq!(supervisor, Supervisor { running: 0, aborted: false });
}

fn greeting(node_id: &str) -> RadiiMessage {
    RadiiMessage::NodeHello {
        node_id: node_id.into(),
        roles: vec!["access".into()],
        listen_addrs: vec![],
    }
}

#[test]
fn head_radii_bridge_forwards_to_crawl() {
    let mut crawl = CrawlState::default();
    match bridge("127.0.0.1:5", &None, greeting("bridged")) {
        BridgeStep::Relay(wrapped) => assert_eq!(
            crawl.handle_message(&None, wrapped, 1),
            Some(RadiiMessage::Ack { status: "head_message_received".into() })
        ),
        other => panic!("expected a relay, got {other:?}"),
    }
    assert!(crawl.nodes.contains_key("bridged"));
}

#[test]
fn the_bridge_relays_registrations_and_reports_only() {
    match bridge("10.0.0.1:5", &Some("n".to_string()), greeting("n")) {
        BridgeStep::Relay(wrapped) => assert_eq!(
            wrapped,
            RadiiMessage::FromHead {
                source: "10.0.0.1:5".into(),
                client_identity: Some("n".into()),
                message: RelayedMessage::try_from(greeting("n")).unwrap(),
            }
        ),
        other => panic!("expected a relay, got {other:?}"),
    }
    match bridge("10.0.0.1:5", &None, RadiiMessage::GraphQuery) {
        BridgeStep::Refuse { ack, reason } => {
            assert_eq!(
                ack,
                RadiiMessage::Ack { status: "unsupported_relay_message".into() }
            );
            assert_eq!(
                reason.describe(),
                "message is not relayable through a Head: GraphQuery"
            );
        }
        other => panic!("expected a refusal, got {other:?}"),
    }
}

#[test]
fn bridge_reuses_one_upstream_session_across_messages() {
    let mut session = Session::start();
    let mut connections = 0;
    for i in 0..5 {
        let message = greeting(&format!("node-{i}"));
        assert!(matches!(bridge("127.0.0.1:5", &None, message), BridgeStep::Relay(_)));
        if session.step() == SessionStep::Dial {
            connections += 1;
            session.dialed();
        }
        assert_eq!(session.step(), SessionStep::Send);
        session.answered();
    }
    assert_eq!(connections, 1);
}

#[test]
fn bridge_reconnects_after_upstream_drop() {
    let mut session = Session::start();
    let mut connections = 0;
    for round in 0..2 {
        assert!(matches!(
            bridge("127.0.0.1:5", &None, greeting("node-a")),
            BridgeStep::Relay(_)
        ));
        if round == 1 {
            // The session of the first message is gone.
            assert_eq!(session.step(), SessionStep::Send);
            session.lose();
        }
        if session.step() == SessionStep::Dial {
            connections += 1;
            session.dialed();
        }
        assert_eq!(session.step(), SessionStep::Send);
        session.answered();
    }
    assert_eq!(connections, 2);
}

#[test]
fn a_message_lost_twice_ends_the_connection() {
    let mut session = Session::start();
    session.dialed();
    session.lose();
    assert_eq!(session.step(), SessionStep::Dial);
    session.dialed();
    session.lose();
    assert_eq!(session.step(), SessionStep::GiveUp);
}

/// Whatever was decided, the backend is the first candidate: also where a
/// chain has no routes, or its best route no hops.
#[test]
fn the_backend_leads_the_candidates_of_every_target() {
    let hop = |id: &str, addr: &str| ResolvedHop {
        node_id: NodeId(id.to_string()),
        addr: addr.to_string(),
    };
    let chain = |routes: Vec<Vec<ResolvedHop>>| BackendDecision {
        target: BackendTarget::Chain(
            routes
                .into_iter()
                .map(|hops| ResolvedRoute { hops, score: 1 })
                .collect(),
        ),
        reason: DecisionReason::GraphRoute,
    };
    let cases: Vec<(BackendDecision, Vec<&str>)> = vec![
        (chain(vec![]), vec!["unreachable"]),
        (chain(vec![vec![]]), vec!["unreachable"]),
        (chain(vec![vec![], vec![hop("b", "b:1")]]), vec!["unreachable", "b:1"]),
        (
            chain(vec![vec![hop("m", "m:1"), hop("b", "b:1")], vec![], vec![hop("c", "c:1")]]),
            vec!["b:1", "c:1"],
        ),
        (
            BackendDecision {
                target: BackendTarget::Direct("d:1".to_string()),
                reason: DecisionReason::Default,
            },
            vec!["d:1"],
        ),
    ];
    for (decision, expected) in cases {
        assert_eq!(decision.candidates(), expected);
        assert_eq!(decision.candidates().first(), Some(&decision.backend()));
    }
}
