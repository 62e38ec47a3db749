//! Frames and the bounds of what they carry.

use radii::codec::DecodeFault;
use radii::frame::{
    decode_payload, encode_frame, graph_report_encoded_bound, node_info_encoded_bound, payload_len,
};
use radii::proto::{
    GraphReport, ListenAddr, NodeInfo, RadiiMessage, RelayedMessage, RouteHop, MAX_FRAME_LEN,
    MAX_LISTEN_ADDRS, MAX_LISTEN_ADDR_LEN, MAX_NODE_ID_LEN, MAX_NODE_ROLES, MAX_PROTOCOL_LEN,
    MAX_ROLE_LEN, MAX_TUNNEL_HOPS, SNAPSHOT_BUDGET,
};
use radii::shown::{shown, Shown};
use radii::validate::WireError;

fn decode(message: &RadiiMessage) -> Result<RadiiMessage, WireError> {
    let frame = encode_frame(message).expect("the frame fits");
    let header = [frame[0], frame[1], frame[2], frame[3]];
    assert_eq!(payload_len(header).unwrap() as usize, frame.len() - 4);
    decode_payload(&frame[4..])
}

fn refusal(message: RadiiMessage) -> String {
    decode(&message).expect_err("a refusal").describe()
}

fn round_trips(make: impl Fn() -> RadiiMessage) {
    assert_eq!(decode(&make()).unwrap(), make());
}

fn listener(addr: &str, role: &str) -> ListenAddr {
    ListenAddr {
        addr: addr.into(),
        role: role.into(),
    }
}

#[test]
fn rejects_a_hello_with_an_oversized_node_id() {
    let err = refusal(RadiiMessage::NodeHello {
        node_id: "n".repeat(MAX_NODE_ID_LEN + 1),
        roles: vec![],
        listen_addrs: vec![],
    });
    assert!(err.contains("node id"), "got: {err}");
    assert_eq!(err, "node id length 257 exceeds 256");
}

#[test]
fn rejects_a_hello_with_too_many_roles() {
    let err = refusal(RadiiMessage::NodeHello {
        node_id: "n".into(),
        roles: (0..=MAX_NODE_ROLES).map(|i| format!("r{i}")).collect(),
        listen_addrs: vec![],
    });
    assert!(err.contains("roles"), "got: {err}");
}

#[test]
fn rejects_a_hello_with_an_oversized_node_level_role() {
    let err = refusal(RadiiMessage::NodeHello {
        node_id: "n".into(),
        roles: vec!["r".repeat(MAX_ROLE_LEN + 1)],
        listen_addrs: vec![],
    });
    assert!(err.contains("role"), "got: {err}");
}

#[test]
fn rejects_a_report_with_an_oversized_target() {
    let err = refusal(RadiiMessage::ReachabilityReport {
        from: "a".into(),
        target: "t".repeat(MAX_NODE_ID_LEN + 1),
        protocol: "radii".into(),
        reachable: true,
        rtt_ms: None,
        observed_addr: None,
    });
    assert!(err.contains("node id"), "got: {err}");
}

#[test]
fn rejects_a_report_with_an_oversized_protocol() {
    let err = refusal(RadiiMessage::ReachabilityReport {
        from: "a".into(),
        target: "b".into(),
        protocol: "p".repeat(MAX_PROTOCOL_LEN + 1),
        reachable: true,
        rtt_ms: None,
        observed_addr: None,
    });
    assert!(err.contains("protocol"), "got: {err}");
}

/// The bounds cover a report relayed through a Head, not only a direct one.
#[test]
fn rejects_a_relayed_report_with_an_oversized_target() {
    let err = refusal(RadiiMessage::FromHead {
        source: "127.0.0.1:1".into(),
        client_identity: Some("a".into()),
        message: RelayedMessage::ReachabilityReport {
            from: "a".into(),
            target: "t".repeat(MAX_NODE_ID_LEN + 1),
            protocol: "radii".into(),
            reachable: true,
            rtt_ms: None,
            observed_addr: None,
        },
    });
    assert!(
        err.contains("node id"),
        "a relayed report must be bounded too; got: {err}"
    );
}

#[test]
fn rejects_a_snapshot_carrying_an_oversized_node_id() {
    let err = refusal(RadiiMessage::GraphSnapshot {
        nodes: vec![NodeInfo {
            node_id: "n".repeat(MAX_NODE_ID_LEN + 1),
            listen_addrs: vec![],
            roles: vec![],
        }],
        reports: vec![],
    });
    assert!(err.contains("node id"), "got: {err}");
}

/// Bounds must not reject anything legitimate.
#[test]
fn accepts_realistic_messages_at_the_bounds() {
    round_trips(|| RadiiMessage::NodeHello {
        node_id: "n".repeat(MAX_NODE_ID_LEN),
        roles: (0..MAX_NODE_ROLES).map(|i| format!("role-{i}")).collect(),
        listen_addrs: vec![listener("127.0.0.1:7100", "relay")],
    });
    round_trips(|| RadiiMessage::ReachabilityReport {
        from: "node-a".into(),
        target: "t".repeat(MAX_NODE_ID_LEN),
        protocol: "p".repeat(MAX_PROTOCOL_LEN),
        reachable: true,
        rtt_ms: Some(12),
        observed_addr: Some("a".repeat(MAX_LISTEN_ADDR_LEN)),
    });
}

/// A bound below what postcard emits would let a snapshot outgrow its frame.
#[test]
fn encoded_bounds_never_underestimate_postcard() {
    let nodes = [
        NodeInfo {
            node_id: String::new(),
            listen_addrs: Vec::new(),
            roles: Vec::new(),
        },
        NodeInfo {
            node_id: "node-a".into(),
            listen_addrs: vec![listener("127.0.0.1:7100", "relay")],
            roles: vec!["crawl".into(), "resource".into()],
        },
        NodeInfo {
            node_id: "n".repeat(4096),
            listen_addrs: (0..MAX_LISTEN_ADDRS)
                .map(|i| ListenAddr {
                    addr: format!("{i}{}", "a".repeat(MAX_LISTEN_ADDR_LEN - 1)),
                    role: "r".repeat(MAX_ROLE_LEN),
                })
                .collect(),
            roles: (0..64).map(|i| format!("role-{i}")).collect(),
        },
    ];
    for node in &nodes {
        // A struct is its fields in order, as a tuple is.
        let listeners: Vec<(&str, &str)> = node
            .listen_addrs
            .iter()
            .map(|l| (l.addr.as_str(), l.role.as_str()))
            .collect();
        let actual = postcard::to_allocvec(&(&node.node_id, listeners, &node.roles))
            .unwrap()
            .len();
        let bound = node_info_encoded_bound(node);
        assert!(
            bound >= actual,
            "bound {bound} under-estimates actual {actual} for {node:?}"
        );
    }

    let reports = [
        GraphReport {
            from: String::new(),
            target: String::new(),
            protocol: String::new(),
            reachable: false,
            rtt_ms: None,
        },
        GraphReport {
            from: "a".into(),
            target: "b".into(),
            protocol: "radii".into(),
            reachable: true,
            rtt_ms: Some(u32::MAX),
        },
        GraphReport {
            from: "f".repeat(8192),
            target: "t".repeat(8192),
            protocol: "p".repeat(512),
            reachable: true,
            rtt_ms: Some(1),
        },
    ];
    for report in &reports {
        let fields = (
            &report.from,
            &report.target,
            &report.protocol,
            report.reachable,
            report.rtt_ms,
        );
        let actual = postcard::to_allocvec(&fields).unwrap().len();
        let bound = graph_report_encoded_bound(report);
        assert!(
            bound >= actual,
            "bound {bound} under-estimates actual {actual} for {report:?}"
        );
    }
}

/// A snapshot filled to the budget still fits a frame with its envelope.
#[test]
fn snapshot_budget_leaves_room_for_the_envelope() {
    let reports: Vec<GraphReport> = (0..20_000)
        .map(|i| GraphReport {
            from: format!("node-{i:06}"),
            target: format!("node-{:06}", i + 1),
            protocol: "radii".into(),
            reachable: true,
            rtt_ms: Some(42),
        })
        .collect();

    let mut used = 0usize;
    let mut kept = Vec::new();
    for report in reports {
        let cost = graph_report_encoded_bound(&report);
        if used + cost > SNAPSHOT_BUDGET as usize {
            break;
        }
        used += cost;
        kept.push(report);
    }
    assert!(!kept.is_empty(), "the budget must admit some reports");

    let frame = encode_frame(&RadiiMessage::GraphSnapshot {
        nodes: Vec::new(),
        reports: kept,
    })
    .unwrap();
    assert!(
        (frame.len() - 4) as u32 <= MAX_FRAME_LEN,
        "a budget-filled snapshot encoded to {} bytes, over {MAX_FRAME_LEN}",
        frame.len() - 4
    );
}

#[test]
fn round_trips_node_hello() {
    round_trips(|| RadiiMessage::NodeHello {
        node_id: "node-a".into(),
        roles: vec!["crawl".into()],
        listen_addrs: vec![listener("127.0.0.1:7100", "relay")],
    });
}

#[test]
fn round_trips_report_probe_ack_and_from_head() {
    round_trips(|| RadiiMessage::ReachabilityReport {
        from: "a".into(),
        target: "b".into(),
        protocol: "radii".into(),
        reachable: true,
        rtt_ms: Some(12),
        observed_addr: Some("1.2.3.4:9".into()),
    });
    round_trips(|| RadiiMessage::ReachabilityProbe {
        from: "a".into(),
        to: "b".into(),
        sent_at_unix_ms: 42,
    });
    round_trips(|| RadiiMessage::Ack { status: "ok".into() });
    round_trips(|| RadiiMessage::FromHead {
        source: "head-1".into(),
        client_identity: Some("node-a".into()),
        message: RelayedMessage::ReachabilityProbe {
            from: "a".into(),
            to: "b".into(),
            sent_at_unix_ms: 7,
        },
    });
}

/// An envelope cannot hold another: such a frame fails to decode and drives
/// nothing into recursion.
#[test]
fn rejects_deeply_nested_from_head_frame() {
    let depth = 200_000usize;
    let mut payload = Vec::with_capacity(depth * 3 + 2);
    for _ in 0..depth {
        payload.push(3u8); // FromHead
        payload.push(0u8); // source = ""
        payload.push(0u8); // client_identity = None
    }
    payload.push(6u8); // a trailing non-relayable variant
    payload.push(0u8);

    assert!(
        payload.len() < MAX_FRAME_LEN as usize,
        "the frame must be within the legal size limit to be meaningful"
    );
    assert!(
        decode_payload(&payload).is_err(),
        "a nested FromHead frame must fail to decode, not recurse"
    );
}

#[test]
fn round_trips_graph_query_and_snapshot() {
    round_trips(|| RadiiMessage::GraphQuery);
    round_trips(|| RadiiMessage::GraphSnapshot {
        nodes: vec![NodeInfo {
            node_id: "node-a".into(),
            listen_addrs: vec![listener("127.0.0.1:9000", "relay")],
            roles: vec!["crawl".into()],
        }],
        reports: vec![GraphReport {
            from: "node-a".into(),
            target: "node-b".into(),
            protocol: "radii".into(),
            reachable: true,
            rtt_ms: Some(12),
        }],
    });
}

#[test]
fn rejects_oversized_length_prefix() {
    let err = payload_len((MAX_FRAME_LEN + 1).to_be_bytes()).unwrap_err();
    assert!(
        err.describe().contains("exceeds max"),
        "unexpected error: {}",
        err.describe()
    );
    assert_eq!(payload_len(MAX_FRAME_LEN.to_be_bytes()), Ok(MAX_FRAME_LEN));
    assert_eq!(payload_len([1, 2, 3, 4]), Err(WireError::FrameLength(0x01020304)));
}

#[test]
fn rejects_garbage_payload() {
    // An incomplete number fails to decode.
    assert_eq!(
        decode_payload(&[0xffu8; 16]),
        Err(WireError::Malformed(DecodeFault::BadVarint))
    );
    assert_eq!(decode_payload(&[]), Err(WireError::Malformed(DecodeFault::UnexpectedEnd)));
    assert_eq!(decode_payload(&[8]), Err(WireError::Malformed(DecodeFault::BadVariant)));
}

#[test]
fn tunnel_open_round_trips() {
    round_trips(|| RadiiMessage::TunnelOpen {
        hops: vec![
            RouteHop {
                node_id: "r1".into(),
                addr: "10.0.0.1:2224".into(),
            },
            RouteHop {
                node_id: "t".into(),
                addr: "10.0.0.2:2224".into(),
            },
        ],
    });
}

#[test]
fn rejects_a_tunnel_open_with_too_many_hops() {
    let hops = (0..=MAX_TUNNEL_HOPS)
        .map(|i| RouteHop {
            node_id: format!("n{i}"),
            addr: "127.0.0.1:1".into(),
        })
        .collect();
    let err = refusal(RadiiMessage::TunnelOpen { hops });
    assert!(
        err.contains("hop count"),
        "expected a hop-count bound error, got: {err}"
    );
    assert_eq!(err, "tunnel_open hop count 33 outside 1..=32");
}

#[test]
fn rejects_an_empty_tunnel_open() {
    let err = refusal(RadiiMessage::TunnelOpen { hops: Vec::new() });
    assert!(err.contains("hop count"), "got: {err}");
}

#[test]
fn node_hello_round_trips_role_tagged_addresses() {
    round_trips(|| RadiiMessage::NodeHello {
        node_id: "node-b".into(),
        roles: vec!["resource".into()],
        listen_addrs: vec![
            listener("10.0.0.5:2224", "relay"),
            listener("10.0.0.5:9000", "http"),
        ],
    });
}

#[test]
fn rejects_a_hello_with_too_many_listen_addrs() {
    let listen_addrs = (0..=MAX_LISTEN_ADDRS)
        .map(|i| listener(&format!("10.0.0.1:{i}"), "relay"))
        .collect();
    let err = refusal(RadiiMessage::NodeHello {
        node_id: "n".into(),
        roles: vec![],
        listen_addrs,
    });
    assert!(err.contains("listen_addrs"), "got: {err}");
}

#[test]
fn rejects_a_hello_with_an_oversized_address() {
    let err = refusal(RadiiMessage::NodeHello {
        node_id: "n".into(),
        roles: vec![],
        listen_addrs: vec![listener(&"a".repeat(MAX_LISTEN_ADDR_LEN + 1), "relay")],
    });
    assert!(err.contains("address"), "got: {err}");
}

#[test]
fn rejects_a_relayed_hello_with_too_many_listen_addrs() {
    let listen_addrs = (0..=MAX_LISTEN_ADDRS)
        .map(|i| listener(&format!("10.0.0.1:{i}"), "relay"))
        .collect();
    let err = refusal(RadiiMessage::FromHead {
        source: "127.0.0.1:1".into(),
        client_identity: Some("node-c".into()),
        message: RelayedMessage::NodeHello {
            node_id: "node-c".into(),
            roles: vec![],
            listen_addrs,
        },
    });
    assert!(
        err.contains("listen_addrs"),
        "a relayed hello must be bounded too; got: {err}"
    );
}

#[test]
fn rejects_a_hello_with_an_oversized_role() {
    let err = refusal(RadiiMessage::NodeHello {
        node_id: "n".into(),
        roles: vec![],
        listen_addrs: vec![listener("10.0.0.1:1", &"r".repeat(MAX_ROLE_LEN + 1))],
    });
    assert!(err.contains("role"), "got: {err}");
}

/// Every kind of refusal, with its words.
#[test]
fn each_bound_has_its_own_refusal() {
    let report = |observed: Option<String>| RadiiMessage::ReachabilityReport {
        from: "a".into(),
        target: "b".into(),
        protocol: "p".into(),
        reachable: false,
        rtt_ms: None,
        observed_addr: observed,
    };
    assert_eq!(
        decode(&report(Some("o".repeat(257)))),
        Err(WireError::ObservedAddrLength(257))
    );
    let open = RadiiMessage::TunnelOpen {
        hops: vec![RouteHop { node_id: "n".into(), addr: "a".repeat(257) }],
    };
    assert_eq!(decode(&open), Err(WireError::HopAddress(257)));
    let wrapped = RadiiMessage::FromHead {
        source: "s".repeat(257),
        client_identity: None,
        message: RelayedMessage::ReachabilityProbe {
            from: "a".into(),
            to: "b".into(),
            sent_at_unix_ms: 0,
        },
    };
    assert_eq!(decode(&wrapped), Err(WireError::SourceLength(257)));
    assert_eq!(
        WireError::SourceLength(257).describe(),
        "from_head source length 257 exceeds 256"
    );
    assert_eq!(WireError::FrameTooLarge.describe(), "frame too large");
    assert_eq!(
        WireError::FrameLength(2_000_000).describe(),
        "frame length 2000000 exceeds max 1048576"
    );
    let big = RadiiMessage::Ack { status: "s".repeat(MAX_FRAME_LEN as usize) };
    assert_eq!(encode_frame(&big), Err(WireError::FrameLength(MAX_FRAME_LEN + 4)));
}

/// The bytes are those that postcard itself writes for the same fields.
#[test]
fn frames_are_postcard() {
    let payload = |message: &RadiiMessage| encode_frame(message).unwrap()[4..].to_vec();
    assert_eq!(
        payload(&RadiiMessage::ReachabilityProbe {
            from: "alpha".into(),
            to: "\u{e9}".into(),
            sent_at_unix_ms: u64::MAX,
        }),
        postcard::to_allocvec(&(1u32, "alpha", "\u{e9}", u64::MAX)).unwrap()
    );
    assert_eq!(
        payload(&RadiiMessage::ReachabilityReport {
            from: "a".into(),
            target: "b".into(),
            protocol: "p".into(),
            reachable: true,
            rtt_ms: Some(300),
            observed_addr: Some("x".into()),
        }),
        postcard::to_allocvec(&(2u32, "a", "b", "p", true, Some(300u32), Some("x"))).unwrap()
    );
    assert_eq!(
        payload(&RadiiMessage::FromHead {
            source: "s".into(),
            client_identity: None,
            message: RelayedMessage::NodeHello {
                node_id: "n".into(),
                roles: vec!["r".into()],
                listen_addrs: vec![listener("l", "m")],
            },
        }),
        postcard::to_allocvec(&(3u32, "s", None::<&str>, 0u32, "n", vec!["r"], vec![("l", "m")]))
            .unwrap()
    );
    assert_eq!(payload(&RadiiMessage::GraphQuery), vec![4]);
    assert_eq!(
        payload(&RadiiMessage::Ack { status: "ok".into() }),
        vec![6, 2, b'o', b'k']
    );
    let long = "h".repeat(200);
    assert_eq!(
        payload(&RadiiMessage::TunnelOpen {
            hops: vec![RouteHop { node_id: long.clone(), addr: "b".into() }],
        }),
        postcard::to_allocvec(&(7u32, vec![(long.as_str(), "b")])).unwrap()
    );
}

/// What postcard refuses, the decoder refuses: a flag that is neither 0 nor 1,
/// bytes that are no UTF-8, a number of too many groups.
#[test]
fn refuses_what_postcard_refuses() {
    // A report whose `reachable` is 2.
    assert_eq!(
        decode_payload(&[2, 0, 0, 0, 2, 0, 0]),
        Err(WireError::Malformed(DecodeFault::BadBool))
    );
    assert!(decode_payload(&[2, 0, 0, 0, 1, 0, 0]).is_ok());
    // A report whose round trip is neither there nor not.
    assert_eq!(
        decode_payload(&[2, 0, 0, 0, 1, 2, 0]),
        Err(WireError::Malformed(DecodeFault::BadOption))
    );
    // An ack whose text is not UTF-8.
    assert_eq!(
        decode_payload(&[6, 1, 0xff]),
        Err(WireError::Malformed(DecodeFault::BadUtf8))
    );
    // An ack whose text is longer than what is left.
    assert_eq!(
        decode_payload(&[6, 2, b'a']),
        Err(WireError::Malformed(DecodeFault::UnexpectedEnd))
    );
    // A list whose length takes eleven groups.
    let mut open = vec![7];
    open.extend([0x80u8; 10]);
    open.push(1);
    assert_eq!(
        decode_payload(&open),
        Err(WireError::Malformed(DecodeFault::BadVarint))
    );
    // A probe whose time takes eleven groups.
    let mut probe = vec![1, 0, 0];
    probe.extend([0x80u8; 10]);
    probe.push(1);
    assert_eq!(
        decode_payload(&probe),
        Err(WireError::Malformed(DecodeFault::BadVarint))
    );
    // Bytes behind a message are ignored.
    assert_eq!(decode_payload(&[4, 9, 9]), Ok(RadiiMessage::GraphQuery));
}

#[test]
fn a_relayable_message_names_whom_it_speaks_for() {
    let hello = RelayedMessage::try_from(RadiiMessage::NodeHello {
        node_id: "n".into(),
        roles: vec![],
        listen_addrs: vec![],
    })
    .unwrap();
    assert_eq!(hello.claimed_node_id(), Some("n"));
    let probe = RelayedMessage::try_from(RadiiMessage::ReachabilityProbe {
        from: "a".into(),
        to: "b".into(),
        sent_at_unix_ms: 1,
    })
    .unwrap();
    assert_eq!(probe.claimed_node_id(), None);
    let refused = RelayedMessage::try_from(RadiiMessage::GraphQuery).unwrap_err();
    assert_eq!(
        refused.describe(),
        "message is not relayable through a Head: GraphQuery"
    );
}

/// The text of a message is what its derived `Debug` gives.
#[test]
fn messages_are_shown_as_debug_shows_them() {
    let listeners = || vec![listener("10.0.0.1:1", "re\"lay"), listener("\\\n", "\u{e9}\u{301}")];
    let report = |rtt_ms: Option<u32>| GraphReport {
        from: "a".into(),
        target: "b\t".into(),
        protocol: "".into(),
        reachable: rtt_ms.is_some(),
        rtt_ms,
    };
    let messages = vec![
        RadiiMessage::NodeHello {
            node_id: "n'\u{0}".into(),
            roles: vec!["x".into(), "y, z".into()],
            listen_addrs: listeners(),
        },
        RadiiMessage::ReachabilityProbe {
            from: "a".into(),
            to: "\u{1f600}".into(),
            sent_at_unix_ms: u64::MAX,
        },
        RadiiMessage::ReachabilityReport {
            from: "a".into(),
            target: "b".into(),
            protocol: "p".into(),
            reachable: false,
            rtt_ms: Some(0),
            observed_addr: Some("o\r".into()),
        },
        RadiiMessage::FromHead {
            source: "s".into(),
            client_identity: None,
            message: RelayedMessage::NodeHello {
                node_id: "n".into(),
                roles: vec![],
                listen_addrs: vec![],
            },
        },
        RadiiMessage::FromHead {
            source: "s".into(),
            client_identity: Some("c".into()),
            message: RelayedMessage::ReachabilityProbe {
                from: "a".into(),
                to: "b".into(),
                sent_at_unix_ms: 0,
            },
        },
        RadiiMessage::FromHead {
            source: "s".into(),
            client_identity: Some("".into()),
            message: RelayedMessage::ReachabilityReport {
                from: "a".into(),
                target: "b".into(),
                protocol: "p".into(),
                reachable: true,
                rtt_ms: None,
                observed_addr: None,
            },
        },
        RadiiMessage::GraphQuery,
        RadiiMessage::GraphSnapshot {
            nodes: vec![
                NodeInfo { node_id: "n".into(), listen_addrs: listeners(), roles: vec!["r".into()] },
                NodeInfo { node_id: "m".into(), listen_addrs: vec![], roles: vec![] },
            ],
            reports: vec![report(None), report(Some(u32::MAX))],
        },
        RadiiMessage::Ack { status: "\u{7f}".into() },
        RadiiMessage::TunnelOpen {
            hops: vec![RouteHop { node_id: "n".into(), addr: "n:1".into() }],
        },
    ];
    for message in messages {
        assert_eq!(shown(&message), format!("{message:?}"));
    }
}

/// Laid out by itself, a message stands with its strings as they are.
#[test]
fn a_layout_takes_the_strings_as_they_are() {
    let hello = RadiiMessage::NodeHello {
        node_id: "n".into(),
        roles: vec!["a".into(), "b".into()],
        listen_addrs: vec![listener("h:1", "relay")],
    };
    assert_eq!(
        hello.lay_out(),
        "NodeHello { node_id: n, roles: [a, b], listen_addrs: [ListenAddr { addr: h:1, role: relay }] }"
    );
    assert_eq!(Some(7u32).lay_out(), "Some(7)");
    assert_eq!(vec![true, false].lay_out(), "[true, false]");
    assert_eq!("a\"".to_string().with_quotes(), "\"a\\\"\"");
}

/// A refusal says what postcard says of it.
#[test]
fn refusals_are_worded_as_postcard_words_them() {
    let faults = [
        (DecodeFault::UnexpectedEnd, postcard::Error::DeserializeUnexpectedEnd),
        (DecodeFault::BadVarint, postcard::Error::DeserializeBadVarint),
        (DecodeFault::BadBool, postcard::Error::DeserializeBadBool),
        (DecodeFault::BadUtf8, postcard::Error::DeserializeBadUtf8),
        (DecodeFault::BadOption, postcard::Error::DeserializeBadOption),
        (DecodeFault::BadVariant, postcard::Error::SerdeDeCustom),
    ];
    for (fault, error) in faults {
        assert_eq!(WireError::Malformed(fault).describe(), error.to_string());
    }
    // The same bytes, read by postcard alone.
    let error = postcard::from_bytes::<(u32, String)>(&[6, 1, 0xff]).unwrap_err();
    assert_eq!(decode_payload(&[6, 1, 0xff]).unwrap_err().describe(), error.to_string());
    let error = postcard::from_bytes::<(u32, Option<u32>)>(&[0, 2]).unwrap_err();
    assert_eq!(error, postcard::Error::DeserializeBadOption);
    let error = postcard::from_bytes::<u32>(&[0xff; 16]).unwrap_err();
    assert_eq!(decode_payload(&[0xff; 16]).unwrap_err().describe(), error.to_string());
}
