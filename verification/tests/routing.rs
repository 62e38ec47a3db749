//! The graph, the planner and the resolution of routes.

use radii::crawl_config::initial_state;
use radii::graph::{address_book, learned, plan_backends, plan_from, snapshot_reply, to_snapshot, GraphState};
use radii::proto::{GraphReport, ListenAddr, NodeInfo, RadiiMessage};
use radii::resolve::{resolve_candidates, resolve_route, AddressBook};
use radii::routing::{
    DefaultScorer, GraphSnapshot, Link, LinkView, NodeId, ProtocolId, ReachabilityReport, RoleId,
    RouteCandidate, RoutePlanner, RouteRequest, RouteScorer, MAX_GRAPH_LINKS, MAX_GRAPH_NODES,
    MAX_ROUTE_RESULTS,
};
use std::collections::HashSet;
use std::time::Instant;

fn report(from: &str, target: &str, protocol: &str, rtt_ms: u32) -> ReachabilityReport {
    ReachabilityReport {
        from: from.to_string(),
        target: target.to_string(),
        protocol: protocol.to_string(),
        reachable: true,
        rtt_ms: Some(rtt_ms),
    }
}

fn nodes(names: &[&str]) -> Vec<NodeId> {
    names.iter().map(|name| NodeId((*name).into())).collect()
}

fn request(source: &str, target: &str, protocols: &[&str], max_hops: usize) -> RouteRequest {
    RouteRequest {
        source: NodeId(source.into()),
        target: NodeId(target.into()),
        allowed_protocols: protocols.iter().map(|p| ProtocolId::new(p)).collect(),
        max_hops,
    }
}

fn link(from: &str, to: &str, protocol: &str, reachable: bool, latency_ms: Option<u32>) -> Link {
    Link {
        from: NodeId(from.into()),
        to: NodeId(to.into()),
        protocol: ProtocolId::new(protocol),
        reachable,
        latency_ms,
    }
}

fn book(entries: &[(&str, &[(&str, &str)])]) -> AddressBook {
    let mut book = AddressBook::new();
    for (node, addrs) in entries {
        let list = addrs
            .iter()
            .map(|(addr, role)| (addr.to_string(), role.to_string()))
            .collect();
        book.insert(node.to_string(), list);
    }
    book
}

#[test]
fn plans_lowest_score_path() {
    let snapshot = GraphSnapshot::from_reports(vec![
        report("a", "b", "radii", 50),
        report("b", "c", "radii", 40),
        report("a", "c", "radii", 200),
    ]);

    let planner = RoutePlanner::new(DefaultScorer);
    let routes = planner.plan(&snapshot, &request("a", "c", &["radii"], 4), 2);

    assert_eq!(routes.len(), 2);
    // a->b->c costs (10+50)+(10+40)=110; direct a->c costs 10+200=210.
    assert_eq!(routes[0].hops, nodes(&["a", "b", "c"]));
    assert_eq!(routes[1].hops, nodes(&["a", "c"]));
    assert!(routes[0].score <= routes[1].score);
    assert_eq!(routes[0].score, 110);
    assert_eq!(routes[1].score, 210);
}

#[test]
fn ignores_unreachable_links() {
    let snapshot = GraphSnapshot::from_reports(vec![ReachabilityReport {
        from: "a".into(),
        target: "b".into(),
        protocol: "radii".into(),
        reachable: false,
        rtt_ms: Some(10),
    }]);
    let planner = RoutePlanner::new(DefaultScorer);
    assert!(planner
        .plan(&snapshot, &request("a", "b", &[], 2), 1)
        .is_empty());
}

#[test]
fn filters_disallowed_protocols() {
    let snapshot = GraphSnapshot::from_reports(vec![
        report("a", "b", "ssh", 10),
        report("a", "b", "radii", 50),
    ]);
    let planner = RoutePlanner::new(DefaultScorer);
    let routes = planner.plan(&snapshot, &request("a", "b", &["radii"], 2), 4);
    assert_eq!(routes.len(), 1);
    assert_eq!(routes[0].protocol, ProtocolId::new("radii"));
}

#[test]
fn respects_max_hops() {
    let snapshot = GraphSnapshot::from_reports(vec![
        report("a", "b", "radii", 10),
        report("b", "c", "radii", 10),
        report("c", "d", "radii", 10),
    ]);
    let planner = RoutePlanner::new(DefaultScorer);
    assert!(planner
        .plan(&snapshot, &request("a", "d", &["radii"], 2), 1)
        .is_empty());
}

/// The hop budget is a constraint, not a tiebreak.
#[test]
fn prefers_a_costlier_route_that_fits_the_hop_budget() {
    let snapshot = GraphSnapshot::from_reports(vec![
        // Cheap but four hops.
        report("a", "x", "radii", 1),
        report("x", "y", "radii", 1),
        report("y", "z", "radii", 1),
        report("z", "d", "radii", 1),
        // Expensive but a single hop.
        report("a", "d", "radii", 500),
    ]);
    let planner = RoutePlanner::new(DefaultScorer);
    let routes = planner.plan(&snapshot, &request("a", "d", &["radii"], 2), 1);
    assert_eq!(routes.len(), 1);
    assert_eq!(routes[0].hops, nodes(&["a", "d"]));
}

#[test]
fn avoids_cycles() {
    let snapshot = GraphSnapshot::from_reports(vec![
        report("a", "b", "radii", 10),
        report("b", "a", "radii", 10),
        report("b", "c", "radii", 10),
    ]);
    let planner = RoutePlanner::new(DefaultScorer);
    let routes = planner.plan(&snapshot, &request("a", "c", &["radii"], 8), 3);
    assert!(!routes.is_empty());
    for route in routes {
        let mut seen = HashSet::new();
        for hop in &route.hops {
            assert!(seen.insert(hop.clone()), "cycle in {:?}", route.hops);
        }
    }
}

#[test]
fn returns_distinct_routes_in_ascending_cost_order() {
    let snapshot = GraphSnapshot::from_reports(vec![
        report("a", "b", "radii", 10),
        report("a", "c", "radii", 20),
        report("a", "d", "radii", 30),
        report("b", "z", "radii", 10),
        report("c", "z", "radii", 10),
        report("d", "z", "radii", 10),
    ]);
    let planner = RoutePlanner::new(DefaultScorer);
    let routes = planner.plan(&snapshot, &request("a", "z", &["radii"], 4), 3);

    assert_eq!(routes.len(), 3);
    assert_eq!(routes[0].hops, nodes(&["a", "b", "z"]));
    assert_eq!(routes[1].hops, nodes(&["a", "c", "z"]));
    assert_eq!(routes[2].hops, nodes(&["a", "d", "z"]));
    for pair in routes.windows(2) {
        assert!(pair[0].score <= pair[1].score, "results not cost-ordered");
    }
}

/// A dense graph with an unreachable target is the worst case of a search
/// that enumerates paths.
#[test]
fn dense_graph_with_unreachable_target_completes_quickly() {
    let mut reports = Vec::new();
    for i in 0..12 {
        for j in 0..12 {
            if i != j {
                reports.push(report(&format!("n{i}"), &format!("n{j}"), "radii", 10));
            }
        }
    }
    assert_eq!(reports.len(), 132);
    let snapshot = GraphSnapshot::from_reports(reports);
    let planner = RoutePlanner::new(DefaultScorer);

    let started = Instant::now();
    let routes = planner.plan(&snapshot, &request("n0", "absent", &["radii"], 10), 1);
    let elapsed = started.elapsed();

    assert!(routes.is_empty());
    assert!(
        elapsed.as_secs() < 5,
        "planning took {elapsed:?}; the search is not bounded"
    );
}

/// A peer that reports about endlessly many nodes meets the node cap first.
#[test]
fn caps_node_count_and_reports_the_drops() {
    let mut snapshot = GraphSnapshot::new();
    for i in 0..(MAX_GRAPH_NODES + 100) {
        snapshot.add_link(Link {
            from: NodeId("a".into()),
            to: NodeId(format!("n{i}")),
            protocol: ProtocolId::new("radii"),
            reachable: true,
            latency_ms: Some(1),
        });
    }
    assert!(
        snapshot.nodes.len() <= MAX_GRAPH_NODES,
        "node cap breached: {}",
        snapshot.nodes.len()
    );
    assert!(snapshot.dropped_links() > 0);
}

/// Parallel links between a handful of nodes meet only the link cap.
#[test]
fn caps_link_count_and_reports_the_drops() {
    let mut snapshot = GraphSnapshot::new();
    for i in 0..(MAX_GRAPH_LINKS + 100) {
        snapshot.add_link(Link {
            from: NodeId("a".into()),
            to: NodeId("b".into()),
            protocol: ProtocolId::new(&format!("radii-{i}")),
            reachable: true,
            latency_ms: Some(1),
        });
    }
    assert_eq!(snapshot.links.len(), MAX_GRAPH_LINKS);
    assert_eq!(snapshot.nodes.len(), 2);
    assert_eq!(snapshot.dropped_links(), 100);
}

#[test]
fn clamps_hostile_request_bounds() {
    let snapshot = GraphSnapshot::from_reports(vec![report("a", "b", "radii", 10)]);
    let planner = RoutePlanner::new(DefaultScorer);
    let routes = planner.plan(
        &snapshot,
        &request("a", "b", &["radii"], usize::MAX),
        usize::MAX,
    );
    assert_eq!(routes.len(), 1);
}

#[test]
fn plan_from_jsonl_shaped_reports() {
    let reports = vec![
        ReachabilityReport {
            from: "edge".into(),
            target: "relay".into(),
            protocol: "radii".into(),
            reachable: true,
            rtt_ms: Some(20),
        },
        ReachabilityReport {
            from: "relay".into(),
            target: "origin".into(),
            protocol: "radii".into(),
            reachable: true,
            rtt_ms: Some(30),
        },
    ];
    let snapshot = GraphSnapshot::from_reports(reports);
    let planner = RoutePlanner::new(DefaultScorer);
    let routes = planner.plan(
        &snapshot,
        &RouteRequest {
            source: NodeId("edge".into()),
            target: NodeId("origin".into()),
            allowed_protocols: vec![ProtocolId::new("radii")],
            max_hops: 4,
        },
        1,
    );
    assert_eq!(routes.len(), 1);
    assert_eq!(
        routes[0].hops,
        vec![
            NodeId("edge".into()),
            NodeId("relay".into()),
            NodeId("origin".into())
        ]
    );
}

#[test]
fn scores_links_by_latency_and_penalty() {
    assert_eq!(DefaultScorer.link_cost(&link("a", "b", "radii", true, Some(50))), 60);
    assert_eq!(DefaultScorer.link_cost(&link("a", "b", "radii", true, Some(0))), 10);
    assert_eq!(DefaultScorer.link_cost(&link("a", "b", "radii", true, None)), 1010);
}

/// Counts links and cares for nothing else. The first method only says so in
/// the terms of contracts, and nothing runs it.
struct FewestHops;

impl RouteScorer for FewestHops {
    fn cost(&self, _link: LinkView) -> u64 {
        unreachable!()
    }

    fn link_cost(&self, _link: &Link) -> u64 {
        1
    }
}

/// A scorer of one's own decides what is cheap.
#[test]
fn a_scorer_of_ones_own_ranks_by_its_costs() {
    let snapshot = GraphSnapshot::from_reports(vec![
        report("a", "b", "radii", 500),
        report("a", "m", "radii", 10),
        report("m", "b", "radii", 10),
    ]);
    let wanted = request("a", "b", &[], 4);
    let fast = RoutePlanner::new(DefaultScorer).plan(&snapshot, &wanted, 2);
    assert_eq!(fast[0].hops, nodes(&["a", "m", "b"]));
    assert_eq!(fast[0].score, 40);
    assert_eq!(fast[1].score, 510);
    let short = RoutePlanner::new(FewestHops).plan(&snapshot, &wanted, 2);
    assert_eq!(short[0].hops, nodes(&["a", "b"]));
    assert_eq!(short[0].score, 1);
    assert_eq!(short[1].hops, nodes(&["a", "m", "b"]));
    assert_eq!(short[1].score, 2);
}

/// A smaller limit cuts the list short and changes nothing else of the costs.
#[test]
fn a_smaller_limit_only_truncates() {
    let mut reports = vec![];
    for i in 0..5 {
        reports.push(report("a", &format!("m{i}"), "radii", 10 * i));
        reports.push(report(&format!("m{i}"), "z", "radii", 10));
    }
    let snapshot = GraphSnapshot::from_reports(reports);
    let planner = RoutePlanner::new(DefaultScorer);
    let costs = |limit: usize| -> Vec<u128> {
        let routes = planner.plan(&snapshot, &request("a", "z", &[], 4), limit);
        routes.iter().map(|r| r.score).collect()
    };
    assert_eq!(costs(9), vec![30, 40, 50, 60, 70]);
    assert_eq!(costs(5), costs(9));
    assert_eq!(costs(3), vec![30, 40, 50]);
    assert_eq!(costs(0), Vec::<u128>::new());
}

/// At one node below the cap a link from a new node to itself still fits, and
/// a link between two new nodes does not.
#[test]
fn a_self_link_needs_room_for_one_node() {
    let mut snapshot = GraphSnapshot::new();
    for i in 0..MAX_GRAPH_NODES - 2 {
        assert!(snapshot.add_link(link("hub", &format!("n{i}"), "radii", true, None)));
    }
    assert_eq!(snapshot.nodes.len(), MAX_GRAPH_NODES - 1);
    assert!(!snapshot.add_link(link("new-a", "new-b", "radii", true, None)));
    assert_eq!(snapshot.dropped_links(), 1);
    assert!(snapshot.add_link(link("self", "self", "radii", true, None)));
    assert_eq!(snapshot.nodes.len(), MAX_GRAPH_NODES);
    assert_eq!(snapshot.dropped_links(), 1);
    assert_eq!(snapshot.links.last().unwrap().from, NodeId("self".into()));
    assert!(snapshot.add_link(link("self", "self", "radii", true, None)), "no new node");
    assert!(!snapshot.add_link(link("other", "other", "radii", true, None)));
    assert_eq!(snapshot.dropped_links(), 2);
}

#[test]
fn returns_no_more_routes_than_the_cap() {
    let mut reports = vec![];
    for i in 0..50 {
        reports.push(report("a", &format!("m{i}"), "radii", 10));
        reports.push(report(&format!("m{i}"), "z", "radii", 10));
    }
    let snapshot = GraphSnapshot::from_reports(reports);
    let planner = RoutePlanner::new(DefaultScorer);
    let routes = planner.plan(&snapshot, &request("a", "z", &[], 4), usize::MAX);
    assert_eq!(routes.len(), MAX_ROUTE_RESULTS);
    assert!(planner.plan(&snapshot, &request("a", "z", &[], 4), 0).is_empty());
}

/// A node reaches itself without a link, and there is nothing to dial.
#[test]
fn a_route_to_oneself_is_free_and_dials_nothing() {
    let snapshot = GraphSnapshot::from_reports(vec![report("a", "b", "radii", 10)]);
    let planner = RoutePlanner::new(DefaultScorer);
    let routes = planner.plan(&snapshot, &request("a", "a", &[], 4), 3);
    assert_eq!(routes.len(), 1);
    assert_eq!(routes[0].hops, nodes(&["a"]));
    assert_eq!(routes[0].score, 0);
    let listen = book(&[("a", &[("a:1", "relay")])]);
    let dialed = plan_from(&snapshot, &listen, &NodeId("a".into()), &nodes(&["a"]), &[], 4, 3);
    assert!(dialed.is_empty());
}

#[test]
fn parallel_links_offer_the_protocol_of_the_cheapest() {
    let snapshot = GraphSnapshot::from_reports(vec![
        report("a", "b", "ssh", 90),
        report("a", "b", "radii", 5),
    ]);
    let planner = RoutePlanner::new(DefaultScorer);
    let routes = planner.plan(&snapshot, &request("a", "b", &[], 2), 1);
    assert_eq!(routes[0].protocol, ProtocolId::new("radii"));
    assert_eq!(routes[0].score, 15);
}

#[test]
fn plans_across_every_configured_target() {
    let mut snapshot = GraphSnapshot::new();
    for (from, to, rtt) in [("s", "t1", 100u32), ("s", "t2", 10)] {
        snapshot.add_link(link(from, to, "radii", true, Some(rtt)));
    }
    let listen = book(&[
        ("t1", &[("10.0.0.1:2224", "relay")]),
        ("t2", &[("10.0.0.2:2224", "relay")]),
    ]);

    let routes = plan_from(
        &snapshot,
        &listen,
        &NodeId("s".into()),
        &[NodeId("t1".into()), NodeId("t2".into())],
        &[ProtocolId::new("radii")],
        4,
        3,
    );

    assert_eq!(routes.len(), 2);
    assert_eq!(routes[0].target().0, "t2", "cheaper target ranks first");
}

#[test]
fn plans_only_to_targets_advertising_a_relay_address() {
    let mut snapshot = GraphSnapshot::new();
    for to in ["t-relay", "t-http"] {
        snapshot.add_link(link("s", to, "radii", true, Some(10)));
    }
    // The second advertises only an http backend, so it is no relay target.
    let listen = book(&[
        ("t-relay", &[("10.0.0.1:2224", "relay")]),
        ("t-http", &[("10.0.0.2:9000", "http")]),
    ]);

    let routes = plan_from(
        &snapshot,
        &listen,
        &NodeId("s".into()),
        &[NodeId("t-relay".into()), NodeId("t-http".into())],
        &[ProtocolId::new("radii")],
        4,
        5,
    );

    assert_eq!(routes.len(), 1);
    assert_eq!(routes[0].target().0, "t-relay");
}

fn state_with(reports: Vec<(&str, &str, &str, bool, Option<u32>)>) -> GraphState {
    let mut snapshot = GraphSnapshot::new();
    for (from, to, protocol, reachable, latency_ms) in reports {
        snapshot.add_link(link(from, to, protocol, reachable, latency_ms));
    }
    GraphState {
        snapshot,
        listen_addrs: book(&[("node-b", &[("10.0.0.5:9000", "relay")])]),
    }
}

#[test]
fn resolves_backend_for_reachable_route() {
    let state = state_with(vec![("head", "node-b", "http", true, Some(15))]);
    let routes = plan_backends(
        &state,
        &NodeId("head".into()),
        &[NodeId("node-b".into())],
        &[ProtocolId::new("http")],
        4,
        3,
    );
    let route = routes.first().expect("expected a route");
    assert_eq!(route.hops.last().unwrap().addr, "10.0.0.5:9000");
    assert_eq!(route.hops.len(), 1);
}

#[test]
fn returns_none_when_target_unreachable() {
    let state = state_with(vec![("head", "node-b", "http", false, Some(15))]);
    let routes = plan_backends(
        &state,
        &NodeId("head".into()),
        &[NodeId("node-b".into())],
        &[ProtocolId::new("http")],
        4,
        3,
    );
    assert!(routes.is_empty());
}

/// One node serves both consumers: a Fetch dials its relay listener, and a
/// consumer of another role finds the other address.
#[test]
fn one_node_serves_both_consumers_from_one_hello() {
    let mut crawl = initial_state(Some(60_000), vec![]);
    let hello = RadiiMessage::NodeHello {
        node_id: "node-b".into(),
        roles: vec!["resource".into()],
        listen_addrs: vec![
            ListenAddr { addr: "10.0.0.5:2224".into(), role: "relay".into() },
            ListenAddr { addr: "10.0.0.5:9000".into(), role: "http".into() },
        ],
    };
    assert!(matches!(
        crawl.handle_message(&None, hello, 1),
        Some(RadiiMessage::Ack { .. })
    ));
    let reply = crawl.handle_message(&None, RadiiMessage::GraphQuery, 2).expect("a reply");
    let (nodes, reports) = snapshot_reply(reply).expect("a snapshot");
    let listen_addrs = learned(&nodes, &reports).listen_addrs;
    let mut snapshot = GraphSnapshot::new();
    snapshot.add_link(link("s", "node-b", "radii", true, Some(10)));

    // The relay role on every hop.
    let fetch = resolve_candidates(
        &snapshot,
        &listen_addrs,
        &NodeId("s".into()),
        &[NodeId("node-b".into())],
        &[ProtocolId::new("radii")],
        4,
        3,
        Some(&RoleId::new(RoleId::RELAY)),
        &RoleId::new(RoleId::RELAY),
    );
    assert_eq!(fetch.len(), 1);
    assert_eq!(fetch[0].hops.last().unwrap().addr, "10.0.0.5:2224");

    // Another role on the target, and no intermediate is dialed.
    let head = resolve_candidates(
        &snapshot,
        &listen_addrs,
        &NodeId("s".into()),
        &[NodeId("node-b".into())],
        &[ProtocolId::new("radii")],
        4,
        3,
        None,
        &RoleId::new(RoleId::HTTP),
    );
    assert_eq!(head.len(), 1);
    assert_eq!(head[0].hops.last().unwrap().addr, "10.0.0.5:9000");
}

#[test]
fn a_route_needs_an_address_for_every_dialed_hop() {
    let planned = RouteCandidate {
        hops: nodes(&["s", "r", "t"]),
        protocol: ProtocolId::new("radii"),
        score: 40,
    };
    let relay = RoleId::new(RoleId::RELAY);
    let full = book(&[("r", &[("r:1", "relay")]), ("t", &[("t:1", "relay")])]);
    let route = resolve_route(&full, &planned, Some(&relay), &relay).expect("dialable");
    assert_eq!(route.score, 40);
    assert_eq!(route.hops.len(), 2);
    assert_eq!(route.hops[0].addr, "r:1");
    assert_eq!(route.target().0, "t");

    let partial = book(&[("t", &[("t:1", "relay")])]);
    assert!(resolve_route(&partial, &planned, Some(&relay), &relay).is_none());
    let direct = resolve_route(&partial, &planned, None, &relay).expect("only the target is dialed");
    assert_eq!(direct.hops.len(), 1);
}

#[test]
fn candidates_come_cheapest_first_and_no_more_than_asked() {
    let mut snapshot = GraphSnapshot::new();
    for (to, rtt) in [("t1", 30u32), ("t2", 10), ("t3", 20)] {
        snapshot.add_link(link("s", to, "radii", true, Some(rtt)));
    }
    let listen = book(&[
        ("t1", &[("t1:1", "relay")]),
        ("t2", &[("t2:1", "relay")]),
        ("t3", &[("t3:1", "relay")]),
    ]);
    let routes = plan_from(
        &snapshot,
        &listen,
        &NodeId("s".into()),
        &nodes(&["t1", "t2", "t3"]),
        &[],
        4,
        2,
    );
    let targets: Vec<&str> = routes.iter().map(|r| r.target().0.as_str()).collect();
    assert_eq!(targets, vec!["t2", "t3"]);
    assert_eq!(routes[0].score, 20);
    assert_eq!(routes[1].score, 30);
}

#[test]
fn a_later_registration_of_a_node_counts() {
    let info = |addr: &str| NodeInfo {
        node_id: "n".into(),
        listen_addrs: vec![ListenAddr { addr: addr.into(), role: "relay".into() }],
        roles: vec![],
    };
    let book = address_book(&[info("old:1"), info("new:1")]);
    assert_eq!(
        book.get("n").unwrap(),
        &vec![("new:1".to_string(), "relay".to_string())]
    );
    assert!(book.get("m").is_none());
}

#[test]
fn only_a_snapshot_answers_a_graph_query() {
    let (nodes, reports) = snapshot_reply(RadiiMessage::GraphSnapshot {
        nodes: vec![],
        reports: vec![],
    })
    .expect("a snapshot");
    assert!(nodes.is_empty() && reports.is_empty());
    let other = snapshot_reply(RadiiMessage::GraphQuery).expect_err("a query is no answer");
    assert_eq!(other.describe(), "unexpected reply to graph query: GraphQuery");
    let other = snapshot_reply(RadiiMessage::Ack { status: "no \"way\"".into() }).unwrap_err();
    assert_eq!(
        other.describe(),
        "unexpected reply to graph query: Ack { status: \"no \\\"way\\\"\" }"
    );
}

#[test]
fn a_wire_graph_becomes_a_planner_snapshot() {
    let report = |from: &str, target: &str, reachable: bool, rtt: Option<u32>| GraphReport {
        from: from.into(),
        target: target.into(),
        protocol: "radii".into(),
        reachable,
        rtt_ms: rtt,
    };
    let reports = vec![
        report("a", "b", true, Some(40)),
        report("b", "c", false, None),
    ];
    let snapshot = to_snapshot(&reports);
    assert_eq!(snapshot.links.len(), 2);
    assert_eq!(snapshot.nodes.len(), 3);
    assert_eq!(snapshot.dropped_links(), 0);
    assert!(snapshot.links[0].reachable);
    assert_eq!(snapshot.links[0].latency_ms, Some(40));
    assert!(!snapshot.links[1].reachable);
}

#[test]
fn the_address_book_holds_every_node_of_a_snapshot() {
    let info = |id: &str, role: &str| NodeInfo {
        node_id: id.into(),
        listen_addrs: vec![ListenAddr { addr: format!("{id}:1"), role: role.into() }],
        roles: vec![],
    };
    let book = address_book(&[info("a", "relay"), info("b", "http")]);
    assert_eq!(book.len(), 2);
    assert_eq!(book.get("a").unwrap(), &vec![("a:1".to_string(), "relay".to_string())]);
    assert_eq!(book.get("b").unwrap(), &vec![("b:1".to_string(), "http".to_string())]);
}
