//! The relay, the initiator of chains and the way to an upstream.

use radii::chain::{opened, plan_chain, ChainRefusal};
use radii::fetch_config::{
    check, graph_without_e2e_tls_warning, graph_without_relay_warning,
    relay_without_tunnel_listener_tls_warning, warnings, Config, ConfigError, ConfigFile,
    GraphSection, OneOrMany, RelayConfig, RelaySection, TunnelTlsConfig,
};
use radii::graph::{address_book, plan_from};
use radii::proto::{ListenAddr, NodeInfo, RadiiMessage, RouteHop};
use radii::relay::{
    admits, forward_status, open_chain, recognise, sanitise, terminal_status, validate, Live,
    Opening, Pump, Splice, TunnelStatus,
};
use radii::resolve::{ResolvedHop, ResolvedRoute};
use radii::routing::{GraphSnapshot, Link, NodeId, ProtocolId};
use radii::timing::{idle_tick_us, positive_ms};
use radii::tls::TlsIdentityConfig;
use radii::upstream::{fallback_timeout_text, normalize_upstream, Attempt, Walk};

fn identity() -> TlsIdentityConfig {
    TlsIdentityConfig {
        cert: "/tmp/c.pem".into(),
        key: "/tmp/k.pem".into(),
        ca: "/tmp/ca.pem".into(),
        crl: None,
    }
}

fn section(tls: Option<TlsIdentityConfig>) -> RelaySection {
    RelaySection {
        bind: "0.0.0.0:2224".into(),
        node_id: "node-r".into(),
        max_hops: None,
        max_concurrent_total: None,
        max_concurrent_per_peer: None,
        idle_timeout_ms: None,
        handshake_timeout_ms: None,
        max_pending_total: None,
        max_pending_per_addr: None,
        allow_peers: None,
        tls,
    }
}

fn config() -> RelayConfig {
    section(Some(identity())).resolve()
}

fn relay(node_id: &str) -> RelayConfig {
    let mut config = config();
    config.node_id = node_id.into();
    config.max_hops = 8;
    config.max_concurrent_total = 16;
    config.max_concurrent_per_peer = 4;
    config
}

fn hop(id: &str) -> RouteHop {
    RouteHop {
        node_id: id.into(),
        addr: format!("{id}:2224"),
    }
}

fn open(ids: &[&str]) -> RadiiMessage {
    RadiiMessage::TunnelOpen {
        hops: ids.iter().map(|id| hop(id)).collect(),
    }
}

fn refused(opening: Opening) -> TunnelStatus {
    match opening {
        Opening::Refuse(status) => status,
        other => panic!("expected a refusal, got {other:?}"),
    }
}

#[test]
fn terminal_node_acks_and_tunnels_to_its_upstream() {
    let mut live = Live::new();
    let opening = open_chain(&mut live, &relay("node-t"), "node-s", &open(&["node-t"]));
    assert!(matches!(opening, Opening::Terminate));
    assert_eq!(live.total(), 1);
    assert_eq!(terminal_status(true), TunnelStatus::Ready);
    assert_eq!(terminal_status(false), TunnelStatus::HopUnreachable);
    assert_eq!(
        TunnelStatus::Ready.ack(),
        RadiiMessage::Ack { status: "tunnel_ready".into() }
    );
}

#[test]
fn rejects_a_tunnel_open_addressed_to_another_node() {
    let mut live = Live::new();
    let path = open(&["someone-else"]);
    let status = refused(open_chain(&mut live, &relay("node-t"), "node-s", &path));
    assert_eq!(status, TunnelStatus::Misaddressed);
    assert_eq!(status.as_str(), "tunnel_misaddressed");
    assert_eq!(live.total(), 0, "a refused chain holds no slot");
}

#[test]
fn a_two_hop_chain_carries_bytes_end_to_end() {
    let mut live = Live::new();
    let path = open(&["node-r", "node-t"]);
    let tail = match open_chain(&mut live, &relay("node-r"), "node-s", &path) {
        Opening::Forward { next, tail } => {
            assert_eq!(next, hop("node-t"));
            tail
        }
        other => panic!("expected a forward, got {other:?}"),
    };
    let mut last = Live::new();
    assert!(matches!(
        open_chain(&mut last, &relay("node-t"), "node-r", &tail),
        Opening::Terminate
    ));
    // The last node's answer travels back through the first unchanged.
    let status = forward_status(Some(&terminal_status(true).ack()));
    assert_eq!(status.as_str(), "tunnel_ready");
}

#[test]
fn rejects_a_path_that_repeats_a_node() {
    let mut live = Live::new();
    let path = open(&["node-r", "node-r"]);
    assert_eq!(
        refused(open_chain(&mut live, &relay("node-r"), "node-s", &path)).as_str(),
        "tunnel_path_loops"
    );
    let path = open(&["node-r", "a", "b", "a"]);
    assert_eq!(
        refused(open_chain(&mut live, &relay("node-r"), "node-s", &path)).as_str(),
        "tunnel_path_loops"
    );
}

#[test]
fn rejects_a_path_longer_than_the_local_limit() {
    let mut limited = relay("node-r");
    limited.max_hops = 1;
    let mut live = Live::new();
    let path = open(&["node-r", "node-t"]);
    assert_eq!(
        refused(open_chain(&mut live, &limited, "node-s", &path)).as_str(),
        "tunnel_too_long"
    );
    // Too long counts before misaddressed.
    let path = open(&["node-x", "a", "b"]);
    assert_eq!(
        refused(open_chain(&mut live, &limited, "node-s", &path)).as_str(),
        "tunnel_too_long"
    );
    limited.max_hops = 2;
    assert_eq!(validate(&vec![], &limited), Err(TunnelStatus::Misaddressed));
    assert_eq!(validate(&vec![hop("node-r"), hop("a")], &limited), Ok(()));
}

#[test]
fn a_forwarded_chain_goes_to_the_next_hop_without_the_first() {
    let mut live = Live::new();
    match open_chain(&mut live, &config(), "peer", &open(&["node-r", "mid", "end"])) {
        Opening::Forward { next, tail } => {
            assert_eq!(next, hop("mid"));
            assert_eq!(tail, open(&["mid", "end"]));
        }
        other => panic!("expected a forward, got {other:?}"),
    }
    assert_eq!(live.of("peer"), 1);
}

#[test]
fn a_relay_expects_a_tunnel_open() {
    let mut live = Live::new();
    let status = refused(open_chain(&mut live, &config(), "peer", &RadiiMessage::GraphQuery));
    assert_eq!(status.as_str(), "expected_tunnel_open");
}

#[test]
fn refuses_a_peer_outside_a_configured_allowlist() {
    let mut narrow = relay("node-t");
    narrow.allow_peers = vec!["node-friend".to_string()];
    let mut live = Live::new();
    assert_eq!(
        refused(open_chain(&mut live, &narrow, "node-stranger", &open(&["node-t"]))).as_str(),
        "relay_forbidden"
    );
    assert!(matches!(
        open_chain(&mut live, &narrow, "node-friend", &open(&["node-t"])),
        Opening::Terminate
    ));
}

#[test]
fn admits_any_ca_valid_peer_when_no_allowlist_is_set() {
    let open_to_all = relay("node-t");
    assert!(admits(&open_to_all, "node-stranger"));
    let mut live = Live::new();
    assert!(matches!(
        open_chain(&mut live, &open_to_all, "node-stranger", &open(&["node-t"])),
        Opening::Terminate
    ));
}

#[test]
fn caps_concurrent_chains_per_peer() {
    let mut capped = relay("node-t");
    capped.max_concurrent_per_peer = 1;
    let mut live = Live::new();
    assert!(matches!(
        open_chain(&mut live, &capped, "node-s", &open(&["node-t"])),
        Opening::Terminate
    ));
    assert_eq!(
        refused(open_chain(&mut live, &capped, "node-s", &open(&["node-t"]))).as_str(),
        "relay_busy"
    );
}

#[test]
fn per_peer_cap_is_keyed_by_authenticated_identity_not_shared_globally() {
    let mut capped = relay("node-t");
    capped.max_concurrent_per_peer = 1;
    let mut live = Live::new();
    assert!(matches!(
        open_chain(&mut live, &capped, "node-a", &open(&["node-t"])),
        Opening::Terminate
    ));
    assert!(!live.acquire("node-a", 16, 1));
    assert!(matches!(
        open_chain(&mut live, &capped, "node-b", &open(&["node-t"])),
        Opening::Terminate
    ));
    assert_eq!(live.total(), 2);
}

#[test]
fn max_concurrent_total_refuses_a_second_peer_once_tripped() {
    let mut capped = relay("node-t");
    capped.max_concurrent_total = 1;
    let mut live = Live::new();
    assert!(matches!(
        open_chain(&mut live, &capped, "node-a", &open(&["node-t"])),
        Opening::Terminate
    ));
    assert_eq!(
        refused(open_chain(&mut live, &capped, "node-b", &open(&["node-t"]))).as_str(),
        "relay_busy"
    );
    assert_eq!(live.of("node-b"), 0);
}

#[test]
fn releases_a_slot_when_the_chain_ends() {
    let mut capped = relay("node-t");
    capped.max_concurrent_per_peer = 1;
    let mut live = Live::new();
    for _ in 0..3 {
        assert!(matches!(
            open_chain(&mut live, &capped, "node-s", &open(&["node-t"])),
            Opening::Terminate
        ));
        assert_eq!(live.of("node-s"), 1);
        live.release("node-s");
        assert_eq!(live.of("node-s"), 0);
        assert_eq!(live.total(), 0);
    }
    assert!(live.acquire("node-s", 8, 2));
    assert!(live.acquire("node-s", 8, 2));
    assert!(!live.acquire("node-s", 8, 2));
    live.release("node-s");
    assert_eq!(live.of("node-s"), 1);
}

#[test]
fn only_the_vocabulary_travels_upstream() {
    let ack = |status: &str| RadiiMessage::Ack { status: status.into() };
    for status in [
        "tunnel_ready",
        "tunnel_misaddressed",
        "tunnel_too_long",
        "tunnel_path_loops",
        "tunnel_hop_unreachable",
        "relay_forwarding_unavailable",
        "expected_tunnel_open",
        "relay_forbidden",
        "relay_busy",
        "relay_downstream_status_unrecognised",
    ] {
        assert_eq!(recognise(status).as_str(), status);
        assert_eq!(sanitise(&ack(status)).as_str(), status);
    }
    let foreign = sanitise(&ack("\u{1b}[2J\nowned"));
    assert_eq!(foreign.as_str(), "relay_downstream_status_unrecognised");
    assert_eq!(sanitise(&RadiiMessage::GraphQuery), TunnelStatus::Unrecognised);
    assert_eq!(forward_status(None), TunnelStatus::HopUnreachable);
    assert_eq!(forward_status(Some(&ack("tunnel_ready"))), TunnelStatus::Ready);
}

#[test]
fn drops_a_chain_that_goes_idle() {
    let splice = Splice::start(0);
    assert!(splice.over(1_200, 300));
    assert!(!splice.over(299, 300));
    assert!(splice.over(300, 300));
}

#[test]
fn keeps_a_busy_chain_alive_past_the_idle_window() {
    let mut splice = Splice::start(0);
    for tick in 0..6 {
        let now = tick * 200;
        assert!(!splice.over(now, 300));
        // Either direction keeps the whole chain alive.
        splice.observe(tick % 2 == 0, Pump::Moved, now);
        assert!(!splice.over(now + 200, 300));
    }
}

#[test]
fn a_client_half_close_still_receives_the_whole_response() {
    let mut splice = Splice::start(0);
    splice.observe(true, Pump::Ended, 10);
    assert!(!splice.over(20, 300), "one closed direction ends nothing");
    splice.observe(false, Pump::Moved, 30);
    splice.observe(false, Pump::Ended, 40);
    assert!(splice.over(40, 300));
}

#[test]
fn watches_four_times_per_idle_window() {
    assert_eq!(idle_tick_us(30_000), 7_500_000);
    assert_eq!(idle_tick_us(1), 10_000);
    assert_eq!(idle_tick_us(u64::MAX), u64::MAX);
    assert_eq!(positive_ms(0), 1);
    assert_eq!(positive_ms(7), 7);
}

fn route(ids: &[&str]) -> ResolvedRoute {
    ResolvedRoute {
        hops: ids
            .iter()
            .map(|id| ResolvedHop {
                node_id: NodeId(id.to_string()),
                addr: format!("{id}:2224"),
            })
            .collect(),
        score: 10,
    }
}

#[test]
fn establishes_a_two_hop_chain_and_returns_an_end_to_end_stream() {
    let plan = plan_chain(&route(&["node-r", "node-t"])).expect("a plan");
    assert_eq!(plan.first_addr, "node-r:2224");
    assert_eq!(plan.first_id, "node-r");
    assert_eq!(plan.target_addr, "node-t:2224");
    assert_eq!(plan.target_id, "node-t");
    assert_eq!(plan.opening, open(&["node-r", "node-t"]));
    assert!(opened(&RadiiMessage::Ack { status: "tunnel_ready".into() }).is_ok());
    assert!(plan_chain(&route(&[])).is_none());
    assert_eq!(ChainRefusal::NoHops.describe(), "route has no hops");
}

#[test]
fn fails_when_a_hop_refuses_the_chain() {
    // The relay could not reach the second hop and says so.
    let status = forward_status(None);
    let err = opened(&status.ack()).unwrap_err();
    assert_eq!(err.describe(), "chain refused: tunnel_hop_unreachable");
    let err = opened(&RadiiMessage::Ack { status: "relay_busy".into() }).unwrap_err();
    assert_eq!(err.describe(), "chain refused: relay_busy");
    let err = opened(&RadiiMessage::GraphQuery).unwrap_err();
    assert_eq!(err.describe(), "expected an ack opening a chain, got GraphQuery");
    let err = opened(&open(&["node-t"])).unwrap_err();
    assert_eq!(
        err.describe(),
        "expected an ack opening a chain, got TunnelOpen { hops: [RouteHop { \
         node_id: \"node-t\", addr: \"node-t:2224\" }] }"
    );
}

#[test]
fn falls_over_to_the_second_candidate_when_the_first_is_dead() {
    let routes = vec![route(&["node-t1"]), route(&["node-t2"])];
    let mut walk = Walk::start(routes.len());
    assert_eq!(walk.attempt(), Attempt::Candidate(0));
    walk.fail();
    assert_eq!(walk.attempt(), Attempt::Candidate(1));
    let plan = plan_chain(&routes[1]).expect("a plan");
    assert_eq!(plan.target_id, "node-t2");
}

#[test]
fn falls_over_when_the_first_candidates_own_upstream_is_dead() {
    let routes = vec![route(&["node-t1"]), route(&["node-t2"])];
    let mut walk = Walk::start(routes.len());
    // The first candidate answers before it is spliced: its upstream is down.
    assert!(opened(&terminal_status(false).ack()).is_err());
    walk.fail();
    assert_eq!(walk.attempt(), Attempt::Candidate(1));
    assert!(opened(&terminal_status(true).ack()).is_ok());
}

#[test]
fn falls_back_to_the_static_upstream_when_every_candidate_fails() {
    let routes = vec![route(&["node-dead"])];
    let mut walk = Walk::start(routes.len());
    assert_eq!(walk.attempt(), Attempt::Candidate(0));
    walk.fail();
    assert_eq!(walk.attempt(), Attempt::Exhausted);
    assert_eq!(Walk::start(0).attempt(), Attempt::Exhausted);
    assert_eq!(
        fallback_timeout_text("127.0.0.1:22", 1000),
        "static upstream fallback to 127.0.0.1:22 timed out after 1000ms"
    );
}

#[test]
fn strips_known_prefixes_and_whitespace() {
    assert_eq!(normalize_upstream("  ssh://127.0.0.1:22 "), "127.0.0.1:22");
    assert_eq!(normalize_upstream("tcp://10.0.0.1:443"), "10.0.0.1:443");
    assert_eq!(normalize_upstream("127.0.0.1:9000"), "127.0.0.1:9000");
}

/// The spelling that the example configurations use for a backend.
#[test]
fn strips_the_http_scheme_the_example_configs_use() {
    assert_eq!(
        normalize_upstream("http://127.0.0.1:9000"),
        "127.0.0.1:9000"
    );
    assert_eq!(
        normalize_upstream("http://10.0.0.10:9000"),
        "10.0.0.10:9000"
    );
}

/// Nothing here speaks TLS to a backend, so the spelling is not accepted.
#[test]
fn leaves_https_alone_rather_than_downgrading_it() {
    assert_eq!(
        normalize_upstream("https://10.0.0.10:443"),
        "https://10.0.0.10:443"
    );
}

#[test]
fn strips_only_one_scheme_and_any_white_space() {
    assert_eq!(normalize_upstream("\u{3000}tcp://ssh://h:1\n"), "ssh://h:1");
    assert_eq!(normalize_upstream(" \t "), "");
    assert_eq!(normalize_upstream("TCP://h:1"), "TCP://h:1");
}

fn file(graph: Option<OneOrMany>, relay: Option<RelaySection>) -> ConfigFile {
    ConfigFile {
        bind: "0.0.0.0:2223".into(),
        upstream: "127.0.0.1:22".into(),
        graph: graph.map(|target_node_ids| GraphSection {
            crawl_upstream: "127.0.0.1:7100".into(),
            source_node_id: None,
            target_node_ids,
            poll_interval_ms: None,
            allowed_protocols: None,
            max_hops: None,
            max_candidates: None,
            attempt_timeout_ms: None,
        }),
        tls: None,
        tunnel_tls: None,
        relay,
    }
}

fn load(graph: Option<OneOrMany>, relay: Option<RelaySection>) -> Config {
    file(graph, relay).resolve().expect("a good configuration")
}

fn one(id: &str) -> Option<OneOrMany> {
    Some(OneOrMany::One(id.into()))
}

#[test]
fn loads_bind_and_upstream() {
    let mut written = file(None, None);
    written.upstream = "ssh://127.0.0.1:22".into();
    let config = written.resolve().unwrap();
    assert_eq!(config.bind, "0.0.0.0:2223");
    assert_eq!(config.upstream, "ssh://127.0.0.1:22");
}

#[test]
fn warns_when_graph_is_configured_without_a_relay() {
    let config = load(one("node-b"), None);
    assert!(graph_without_relay_warning(&config).is_some());
}

#[test]
fn does_not_warn_without_a_graph_section() {
    let config = load(None, None);
    assert!(graph_without_relay_warning(&config).is_none());
    assert!(warnings(&config).is_empty());
}

#[test]
fn warns_when_a_relay_has_no_tunnel_listener_identity() {
    let config = load(None, Some(section(Some(identity()))));
    assert!(relay_without_tunnel_listener_tls_warning(&config).is_some());
}

#[test]
fn relay_is_absent_by_default() {
    let config = load(None, None);
    assert!(config.relay.is_none(), "relaying must be opt-in");
}

#[test]
fn loads_relay_with_defaults() {
    let relay = load(None, Some(section(Some(identity()))))
        .relay
        .expect("relay present");
    assert_eq!(relay.bind, "0.0.0.0:2224");
    assert_eq!(relay.max_hops, 8);
    assert_eq!(relay.max_concurrent_total, 256);
    assert_eq!(relay.max_concurrent_per_peer, 8);
    assert_eq!(relay.idle_timeout_ms, 30_000);
    assert_eq!(relay.handshake_timeout_ms, 10_000);
    assert!(relay.allow_peers.is_empty());
    assert_eq!(relay.max_pending_total, 256);
    assert_eq!(relay.max_pending_per_addr, 16);
}

#[test]
fn rejects_a_relay_without_tls() {
    let err = file(None, Some(section(None))).resolve().unwrap_err();
    assert!(
        err.describe().contains("relay.tls"),
        "a relay without mTLS is an open proxy; got: {}",
        err.describe()
    );
}

#[test]
fn accepts_the_legacy_scalar_target_node_id() {
    let graph = load(one("node-b"), None).graph.expect("graph present");
    assert_eq!(graph.target_node_ids, vec!["node-b".to_string()]);
    assert_eq!(graph.max_candidates, 3);
    assert_eq!(graph.attempt_timeout_ms, 3000);
    assert_eq!(graph.source_node_id, "fetch");
}

#[test]
fn accepts_a_target_node_id_list() {
    let list = OneOrMany::Many(vec!["node-b".into(), "node-c".into()]);
    let graph = load(Some(list), None).graph.expect("graph present");
    assert_eq!(
        graph.target_node_ids,
        vec!["node-b".to_string(), "node-c".to_string()]
    );
}

#[test]
fn rejects_a_graph_without_targets() {
    let err = file(Some(OneOrMany::Many(vec![])), None).resolve().unwrap_err();
    assert_eq!(err, ConfigError::NoTargets);
    assert_eq!(
        err.describe(),
        "graph.target_node_ids must name at least one node"
    );
}

#[test]
fn keeps_what_was_written_and_warns_of_what_is_missing() {
    let mut written = section(Some(identity()));
    written.max_hops = Some(3);
    written.allow_peers = Some(vec!["friend".into()]);
    let mut config = load(one("node-b"), Some(written));
    let relay = config.relay.as_ref().unwrap();
    assert_eq!(relay.max_hops, 3);
    assert_eq!(relay.allow_peers, vec!["friend".to_string()]);
    assert_eq!(warnings(&config).len(), 2);
    assert!(graph_without_e2e_tls_warning(&config).is_some());
    config.tunnel_tls = Some(TunnelTlsConfig {
        listener: Some(identity()),
        upstream: Some(identity()),
    });
    assert!(warnings(&config).is_empty());
    assert_eq!(check(&config), Ok(()));
    config.relay.as_mut().unwrap().tls = None;
    assert_eq!(check(&config), Err(ConfigError::RelayWithoutTls));
}

#[test]
fn a_planned_chain_passes_every_relay_on_it() {
    let mut snapshot = GraphSnapshot::new();
    for (from, to) in [("s", "a"), ("a", "b"), ("b", "t")] {
        snapshot.add_link(Link {
            from: NodeId(from.into()),
            to: NodeId(to.into()),
            protocol: ProtocolId::new("radii"),
            reachable: true,
            latency_ms: Some(5),
        });
    }
    let info = |id: &str| NodeInfo {
        node_id: id.into(),
        listen_addrs: vec![ListenAddr { addr: format!("{id}:2224"), role: "relay".into() }],
        roles: vec![],
    };
    let listen = address_book(&[info("a"), info("b"), info("t")]);
    let targets = [NodeId("t".into())];
    let routes = plan_from(&snapshot, &listen, &NodeId("s".into()), &targets, &[], 4, 3);
    assert_eq!(routes.len(), 1);

    let mut message = plan_chain(&routes[0]).expect("a plan").opening;
    for id in ["a", "b", "t"] {
        let relay = RelayConfig { node_id: id.to_string(), ..config() };
        message = match open_chain(&mut Live::new(), &relay, "peer", &message) {
            Opening::Forward { next, tail } => {
                assert_ne!(id, "t");
                assert_eq!(next.addr, format!("{}:2224", next.node_id));
                tail
            }
            Opening::Terminate => {
                assert_eq!(id, "t");
                RadiiMessage::GraphQuery
            }
            Opening::Refuse(status) => panic!("{id} refused: {}", status.as_str()),
        };
    }
    assert_eq!(message, RadiiMessage::GraphQuery, "the target ended the chain");
}
