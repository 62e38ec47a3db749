//! The Crawl's registry, its table and its answers.

use radii::crawl::{
    expired_node_ids, graph_snapshot, CrawlState, NodeEntry, ReachabilityEntry,
    MAX_REACHABILITY_ENTRIES_PER_PEER,
};
use radii::crawl_config::{initial_state, ConfigFile};
use radii::frame::{decode_payload, encode_frame};
use radii::proto::{ListenAddr, RadiiMessage, RelayedMessage, MAX_NODE_ID_LEN, MAX_PROTOCOL_LEN};
use radii::table::Table;

fn report_entry(last_seen_unix_ms: u64) -> ReachabilityEntry {
    ReachabilityEntry {
        reachable: true,
        rtt_ms: Some(10),
        observed_addr: None,
        last_seen_unix_ms,
    }
}

fn entry(roles: Vec<&str>, last_seen_unix_ms: u64) -> NodeEntry {
    NodeEntry {
        listen_addrs: vec![ListenAddr {
            addr: "127.0.0.1:1".to_string(),
            role: "relay".to_string(),
        }],
        roles: roles.into_iter().map(String::from).collect(),
        last_seen_unix_ms,
    }
}

fn key(from: &str, target: &str, protocol: &str) -> (String, String, String) {
    (from.to_string(), target.to_string(), protocol.to_string())
}

fn hello(node_id: &str, roles: &[&str]) -> RadiiMessage {
    RadiiMessage::NodeHello {
        node_id: node_id.into(),
        roles: roles.iter().map(|r| r.to_string()).collect(),
        listen_addrs: vec![],
    }
}

fn report(from: &str, target: &str) -> RadiiMessage {
    RadiiMessage::ReachabilityReport {
        from: from.into(),
        target: target.into(),
        protocol: "http".into(),
        reachable: true,
        rtt_ms: Some(12),
        observed_addr: None,
    }
}

fn status(reply: Option<RadiiMessage>) -> String {
    match reply {
        Some(RadiiMessage::Ack { status }) => status,
        other => panic!("expected an ack, got {other:?}"),
    }
}

#[test]
fn no_ttl_means_nothing_expires() {
    let mut nodes = Table::new();
    nodes.insert("a".to_string(), entry(vec![], 0));
    assert!(expired_node_ids(&nodes, None, 1_000_000).is_empty());
}

#[test]
fn node_past_ttl_is_expired() {
    let mut nodes = Table::new();
    nodes.insert("fresh".to_string(), entry(vec![], 9_000));
    nodes.insert("stale".to_string(), entry(vec![], 0));
    let expired = expired_node_ids(&nodes, Some(5_000), 10_000);
    assert!(expired.contains("stale"));
    assert!(!expired.contains("fresh"));
}

#[test]
fn graph_snapshot_carries_roles() {
    let mut state = CrawlState::default();
    state
        .nodes
        .insert("wave-a".to_string(), entry(vec!["wave"], 0));
    let (nodes, _) = graph_snapshot(&state, 0);
    let node = nodes.iter().find(|n| n.node_id == "wave-a").unwrap();
    assert_eq!(node.roles, vec!["wave".to_string()]);
}

#[test]
fn graph_snapshot_excludes_expired_node_and_its_reports() {
    let mut state = CrawlState {
        node_ttl_ms: Some(5_000),
        ..CrawlState::default()
    };
    state
        .nodes
        .insert("fresh".to_string(), entry(vec![], 9_000));
    state.nodes.insert("stale".to_string(), entry(vec![], 0));
    state.record_report(key("fresh", "stale", "http"), report_entry(10_000));

    let (nodes, reports) = graph_snapshot(&state, 10_000);
    assert!(nodes.iter().all(|n| n.node_id != "stale"));
    assert!(nodes.iter().any(|n| n.node_id == "fresh"));
    assert!(
        reports.is_empty(),
        "report naming an expired node must be dropped"
    );
}

/// The same peer re-reporting the same link forever costs one entry.
#[test]
fn repeated_reports_replace_rather_than_accumulate() {
    let mut state = CrawlState::default();
    let key = key("a", "b", "http");
    for tick in 0..1_000 {
        assert!(state.record_report(key.clone(), report_entry(tick)));
    }
    assert_eq!(state.reachability.len(), 1);
    assert_eq!(
        state.reachability.get(&key).unwrap().last_seen_unix_ms,
        999,
        "the newest observation should win"
    );
}

/// One peer must not be able to fill the whole table and starve others.
#[test]
fn a_single_peer_cannot_exhaust_the_table() {
    let mut state = CrawlState::default();
    let mut accepted = 0;
    for i in 0..(MAX_REACHABILITY_ENTRIES_PER_PEER + 500) {
        if state.record_report(
            ("noisy".to_string(), format!("t{i}"), "http".to_string()),
            report_entry(0),
        ) {
            accepted += 1;
        }
    }
    assert_eq!(accepted, MAX_REACHABILITY_ENTRIES_PER_PEER);

    // An honest peer still gets in.
    assert!(state.record_report(key("honest", "b", "http"), report_entry(0)));
}

/// A stale observation drops out even when both of its ends are alive.
#[test]
fn graph_snapshot_drops_a_stale_report_between_live_nodes() {
    let mut state = CrawlState {
        node_ttl_ms: Some(5_000),
        ..CrawlState::default()
    };
    state.nodes.insert("a".to_string(), entry(vec![], 10_000));
    state.nodes.insert("b".to_string(), entry(vec![], 10_000));
    state.record_report(key("a", "b", "http"), report_entry(0));

    let (nodes, reports) = graph_snapshot(&state, 10_000);
    assert_eq!(nodes.len(), 2, "both nodes are still live");
    assert!(
        reports.is_empty(),
        "an observation older than the TTL must not keep a link alive"
    );
}

#[test]
fn graph_snapshot_keeps_reports_for_unregistered_node_ids() {
    // "head" never sends its own hello; a report naming it still comes through.
    let mut state = CrawlState::default();
    state
        .nodes
        .insert("node-b".to_string(), entry(vec!["resource"], 0));
    state.record_report(key("head", "node-b", "http"), report_entry(0));

    let (_, reports) = graph_snapshot(&state, 0);
    assert_eq!(reports.len(), 1);
    assert_eq!(reports[0].from, "head");
}

fn listener(addr: &str) -> ListenAddr {
    ListenAddr { addr: addr.into(), role: "relay".into() }
}

fn hello_at(node_id: &str, roles: &[&str], addr: &str) -> RadiiMessage {
    RadiiMessage::NodeHello {
        node_id: node_id.into(),
        roles: roles.iter().map(|r| r.to_string()).collect(),
        listen_addrs: vec![listener(addr)],
    }
}

#[test]
fn hello_probe_and_report_are_acked_and_stored() {
    let mut state = CrawlState::default();
    assert_eq!(
        status(state.handle_message(&None, hello_at("node-a", &["crawl"], "127.0.0.1:1"), 5)),
        "hello_received"
    );
    let probe = RadiiMessage::ReachabilityProbe {
        from: "node-a".into(),
        to: "node-b".into(),
        sent_at_unix_ms: 1,
    };
    assert_eq!(status(state.handle_message(&None, probe, 6)), "probe_received");
    let report = RadiiMessage::ReachabilityReport {
        from: "node-a".into(),
        target: "node-b".into(),
        protocol: "radii".into(),
        reachable: true,
        rtt_ms: Some(33),
        observed_addr: None,
    };
    assert_eq!(status(state.handle_message(&None, report, 7)), "report_received");
    let stored = state.nodes.get("node-a").unwrap();
    assert_eq!(stored.listen_addrs, vec![listener("127.0.0.1:1")]);
    assert_eq!(stored.roles, vec!["crawl".to_string()]);
    assert_eq!(stored.last_seen_unix_ms, 5);
    assert_eq!(state.reachability.len(), 1);
    let entry = state.reachability.get(&key("node-a", "node-b", "radii")).unwrap();
    assert!(entry.reachable);
    assert_eq!(entry.rtt_ms, Some(33));
    assert_eq!(entry.last_seen_unix_ms, 7);
}

#[test]
fn from_head_wrapper_is_ingested() {
    let mut state = CrawlState::default();
    let wrapped = RadiiMessage::FromHead {
        source: "127.0.0.1:9".into(),
        client_identity: None,
        message: RelayedMessage::NodeHello {
            node_id: "via-head".into(),
            roles: vec!["resource".into()],
            listen_addrs: vec![],
        },
    };
    assert_eq!(
        status(state.handle_message(&None, wrapped, 1)),
        "head_message_received"
    );
    assert!(state.nodes.contains_key("via-head"));
}

#[test]
fn tls_enabled_crawl_authorizes_by_peer_identity() {
    let mut state = CrawlState::default();
    let peer = Some("node-a".to_string());
    assert_eq!(
        status(state.handle_message(&peer, hello_at("node-b", &[], "10.0.0.1:1"), 0)),
        "unauthorized_node_id"
    );
    assert!(!state.nodes.contains_key("node-b"));
    assert_eq!(
        status(state.handle_message(&peer, report("node-b", "x"), 0)),
        "unauthorized_node_id"
    );
    assert_eq!(state.nodes.len(), 0);
    assert_eq!(state.reachability.len(), 0);
    assert_eq!(
        status(state.handle_message(&peer, hello_at("node-a", &[], "10.0.0.2:2"), 0)),
        "hello_received"
    );
    assert!(state.nodes.contains_key("node-a"));
}

fn spoofed(source: &str, client: Option<&str>) -> RadiiMessage {
    RadiiMessage::FromHead {
        source: source.into(),
        client_identity: client.map(String::from),
        message: RelayedMessage::NodeHello {
            node_id: "victim-node".into(),
            roles: vec!["resource".into()],
            listen_addrs: vec![listener("6.6.6.6:9000")],
        },
    }
}

#[test]
fn from_head_no_longer_bypasses_the_identity_check() {
    let mut state = initial_state(None, vec![]);
    let peer = Some("attacker".to_string());
    assert_eq!(
        status(state.handle_message(&peer, hello_at("victim-node", &[], "6.6.6.6:9000"), 0)),
        "unauthorized_node_id"
    );
    assert_eq!(
        status(state.handle_message(&peer, spoofed("i-am-not-a-head", Some("victim-node")), 0)),
        "unauthorized_relay_peer"
    );
    assert!(!state.nodes.contains_key("victim-node"));
    assert_eq!(state.nodes.len(), 0);
}

#[test]
fn configured_relay_cannot_forge_the_client_identity() {
    let mut state = initial_state(None, vec!["head-1".to_string()]);
    let peer = Some("head-1".to_string());
    for client in [Some("someone-else"), None] {
        assert_eq!(
            status(state.handle_message(&peer, spoofed("127.0.0.1:9", client), 0)),
            "unauthorized_node_id"
        );
    }
    assert!(!state.nodes.contains_key("victim-node"));
    assert_eq!(state.nodes.len(), 0);
}

#[test]
fn configured_relay_forwards_a_matching_claim() {
    let mut state = initial_state(None, vec!["head-1".to_string()]);
    let peer = Some("head-1".to_string());
    let wrapped = RadiiMessage::FromHead {
        source: "127.0.0.1:9".into(),
        client_identity: Some("node-b".into()),
        message: RelayedMessage::NodeHello {
            node_id: "node-b".into(),
            roles: vec!["resource".into()],
            listen_addrs: vec![listener("10.0.0.5:9000")],
        },
    };
    assert_eq!(
        status(state.handle_message(&peer, wrapped, 0)),
        "head_message_received"
    );
    let entry = state.nodes.get("node-b").expect("relayed hello ingested");
    assert_eq!(entry.listen_addrs, vec![listener("10.0.0.5:9000")]);
}

#[test]
fn graph_query_reflects_declared_roles() {
    let mut state = CrawlState::default();
    state.handle_message(&None, hello_at("wave-a", &["wave"], "127.0.0.1:9500"), 0);
    match state.handle_message(&None, RadiiMessage::GraphQuery, 0) {
        Some(RadiiMessage::GraphSnapshot { nodes, reports }) => {
            let node = nodes.iter().find(|n| n.node_id == "wave-a").expect("node present");
            assert_eq!(node.roles, vec!["wave".to_string()]);
            assert!(reports.is_empty());
        }
        other => panic!("expected a snapshot, got {other:?}"),
    }
}

#[test]
fn graph_query_drops_nodes_past_their_ttl() {
    let mut state = initial_state(Some(50), vec![]);
    state.handle_message(&None, hello_at("wave-a", &["wave"], "127.0.0.1:9500"), 0);
    for (now, count) in [(50, 1), (51, 0), (150, 0)] {
        match state.handle_message(&None, RadiiMessage::GraphQuery, now) {
            Some(RadiiMessage::GraphSnapshot { nodes, .. }) => {
                assert_eq!(nodes.iter().filter(|n| n.node_id == "wave-a").count(), count);
            }
            other => panic!("expected a snapshot, got {other:?}"),
        }
    }
}

#[test]
fn a_full_table_says_so_to_the_peer_that_filled_it() {
    let mut state = CrawlState::default();
    for i in 0..MAX_REACHABILITY_ENTRIES_PER_PEER {
        assert!(state.record_report(key("noisy", &format!("t{i}"), "http"), report_entry(0)));
    }
    assert_eq!(
        status(state.handle_message(&None, report("noisy", "one-more"), 0)),
        "reachability_table_full"
    );
    assert_eq!(
        status(state.handle_message(&None, report("noisy", "t0"), 0)),
        "report_received"
    );
}

#[test]
fn messages_that_are_no_request_get_no_answer() {
    let mut state = CrawlState::default();
    let ack = RadiiMessage::Ack { status: "x".into() };
    assert!(state.handle_message(&None, ack, 0).is_none());
    let snapshot = RadiiMessage::GraphSnapshot { nodes: vec![], reports: vec![] };
    assert!(state.handle_message(&None, snapshot, 0).is_none());
    let open = RadiiMessage::TunnelOpen { hops: vec![] };
    assert!(state.handle_message(&None, open, 0).is_none());
    assert_eq!(state.nodes.len(), 0);
}

fn sized_report(target: String) -> RadiiMessage {
    RadiiMessage::ReachabilityReport {
        from: "peer".into(),
        target,
        protocol: "radii".into(),
        reachable: true,
        rtt_ms: Some(1),
        observed_addr: None,
    }
}

/// A table that outgrew one frame still gives an answer that fits.
#[test]
fn graph_query_still_answers_when_the_table_outgrows_one_frame() {
    let mut state = CrawlState::default();
    let baseline = state.handle_message(&None, RadiiMessage::GraphQuery, 0).expect("an answer");
    assert!(encode_frame(&baseline).is_ok());

    // At the bound a target is decoded and accepted, one byte over it is not
    // even decoded.
    let frame = encode_frame(&sized_report("t".repeat(MAX_NODE_ID_LEN))).unwrap();
    let report = decode_payload(&frame[4..]).unwrap();
    assert_eq!(status(state.handle_message(&None, report, 0)), "report_received");
    let frame = encode_frame(&sized_report("t".repeat(MAX_NODE_ID_LEN + 1))).unwrap();
    assert!(decode_payload(&frame[4..]).is_err());

    let peers = 4;
    for peer in 0..peers {
        let from = format!("{peer:03}{}", "f".repeat(MAX_NODE_ID_LEN - 3));
        for i in 0..MAX_REACHABILITY_ENTRIES_PER_PEER {
            let target = format!("{i:04}{}", "t".repeat(MAX_NODE_ID_LEN - 4));
            let protocol = "p".repeat(MAX_PROTOCOL_LEN);
            let entry = ReachabilityEntry {
                reachable: true,
                rtt_ms: Some(1),
                observed_addr: None,
                last_seen_unix_ms: 0,
            };
            assert!(state.record_report((from.clone(), target, protocol), entry));
        }
    }
    for _ in 0..2 {
        let reply = state
            .handle_message(&None, RadiiMessage::GraphQuery, 0)
            .expect("an answer");
        assert!(encode_frame(&reply).is_ok(), "the answer must fit a frame");
        match reply {
            RadiiMessage::GraphSnapshot { reports, .. } => {
                assert!(!reports.is_empty());
                assert!(reports.len() < peers * MAX_REACHABILITY_ENTRIES_PER_PEER);
            }
            other => panic!("expected a snapshot, got {other:?}"),
        }
    }
}

fn written(node_ttl_ms: Option<u64>, relay_peers: Option<Vec<String>>) -> ConfigFile {
    ConfigFile {
        bind: "127.0.0.1:7100".to_string(),
        tls: None,
        node_ttl_ms,
        relay_peers,
    }
}

#[test]
fn loads_bind() {
    assert_eq!(written(None, None).resolve().bind, "127.0.0.1:7100");
}

#[test]
fn defaults_node_ttl_ms_when_absent() {
    assert_eq!(written(None, None).resolve().node_ttl_ms, 60_000);
}

#[test]
fn loads_explicit_node_ttl_ms() {
    assert_eq!(written(Some(5000), None).resolve().node_ttl_ms, 5000);
}

#[test]
fn relay_peers_defaults_to_empty() {
    assert!(
        written(None, None).resolve().relay_peers.is_empty(),
        "no peer may relay unless the operator names one"
    );
}

#[test]
fn loads_explicit_relay_peers() {
    let config = written(None, Some(vec!["head-1".into(), "head-2".into()])).resolve();
    assert_eq!(config.relay_peers, vec!["head-1", "head-2"]);
}

#[test]
fn what_is_said_is_read_back_until_it_is_stale() {
    let mut state = initial_state(Some(100), vec![]);
    state.handle_message(&None, hello("node-a", &["resource"]), 50);
    state.handle_message(&None, report("node-a", "node-b"), 60);

    let (nodes, reports) = graph_snapshot(&state, 150);
    assert_eq!(nodes.len(), 1);
    assert_eq!(nodes[0].node_id, "node-a");
    assert_eq!(nodes[0].roles, vec!["resource".to_string()]);
    assert_eq!(reports.len(), 1);
    assert_eq!(reports[0].from, "node-a");
    assert_eq!(reports[0].target, "node-b");
    assert_eq!(reports[0].rtt_ms, Some(12));

    let (nodes, reports) = graph_snapshot(&state, 151);
    assert!(nodes.is_empty(), "quiet for longer than the time to live");
    assert!(reports.is_empty(), "its reports go with it");
}

#[test]
fn a_relayed_registration_is_the_direct_one() {
    let mut through = initial_state(None, vec!["head-1".to_string()]);
    let mut direct = initial_state(None, vec!["head-1".to_string()]);
    let wrapped = RadiiMessage::FromHead {
        source: "10.0.0.1:5".into(),
        client_identity: Some("node-a".into()),
        message: RelayedMessage::NodeHello {
            node_id: "node-a".into(),
            roles: vec!["wave".into()],
            listen_addrs: vec![],
        },
    };
    through.handle_message(&Some("head-1".to_string()), wrapped, 9);
    direct.handle_message(&Some("node-a".to_string()), hello("node-a", &["wave"]), 9);
    for state in [&through, &direct] {
        let entry = state.nodes.get("node-a").expect("registered");
        assert_eq!(entry.roles, vec!["wave".to_string()]);
        assert_eq!(entry.last_seen_unix_ms, 9);
    }
}
