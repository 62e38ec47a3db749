//! The command line: its face, its arguments and its output.

use radii::brand::{
    banner, dim, heading, legend, literal, locale, reach_glyph, tinted, Cut, Format, Term, Tone,
    MARK_ASCII, MARK_BRAILLE, TAGLINE,
};
use radii::cli::{
    command_sections, groups, help_template, parse_listen_addr, partial_view_warning, plan_lines,
    plan_pretty_lines, reply_line, Command, ListenAddrFault,
};
use radii::proto::{GraphReport, ListenAddr, NodeInfo, RadiiMessage};
use radii::routing::{NodeId, ProtocolId, RouteCandidate};
use radii::show_graph::{node_state, plain_lines, pretty_lines, rtt, shown_nodes, state_label};
use radii::show_head::{
    decision_line, decision_lines, endpoint, graph_state, health_line, health_lines, Decision,
};
use radii::tls::{tls_choice, TlsChoice};

fn tty() -> Term {
    Term {
        stdout_is_tty: true,
        ..Term::default()
    }
}

fn plain_tty() -> Term {
    Term {
        no_color: true,
        ..tty()
    }
}

#[test]
fn a_pipe_gets_no_art_and_no_colour() {
    let piped = Term::default();
    assert_eq!(piped.cut(), Cut::Blank);
    assert!(!piped.color());
    assert!(banner(&piped, "0.1.0").is_none());
}

#[test]
fn a_dumb_terminal_gets_no_art() {
    let t = Term {
        term: Some("dumb".into()),
        ..tty()
    };
    assert_eq!(t.cut(), Cut::Blank);
    assert!(!t.color());
}

#[test]
fn a_legacy_locale_falls_back_to_the_ascii_ramp() {
    for locale in [None, Some("C".to_string()), Some("en_US.ISO-8859-1".into())] {
        let t = Term {
            locale,
            term: Some("xterm-256color".into()),
            ..tty()
        };
        assert_eq!(t.cut(), Cut::Ascii, "{t:?}");
    }
}

#[test]
fn a_utf8_locale_or_a_known_emulator_gets_the_braille_cut() {
    for t in [
        Term {
            locale: Some("en_US.UTF-8".into()),
            ..tty()
        },
        Term {
            wt_session: true,
            ..tty()
        },
        Term {
            term_program: Some("iTerm.app".into()),
            ..tty()
        },
    ] {
        assert_eq!(t.cut(), Cut::Braille, "{t:?}");
    }
}

#[test]
fn the_override_wins_over_detection() {
    let t = Term {
        banner_override: Some("braille".into()),
        ..Term::default()
    };
    assert_eq!(t.cut(), Cut::Braille);

    let t = Term {
        banner_override: Some("none".into()),
        wt_session: true,
        ..tty()
    };
    assert_eq!(t.cut(), Cut::Blank);
}

#[test]
fn no_color_keeps_the_art_but_drops_the_tint() {
    let t = Term {
        no_color: true,
        wt_session: true,
        ..tty()
    };
    assert_eq!(t.cut(), Cut::Braille);
    assert!(!t.color());
    let banner = banner(&t, "0.1.0").unwrap();
    assert!(
        !banner.contains('\u{1b}'),
        "no escape sequences without colour"
    );
}

#[test]
fn the_banner_carries_the_name_and_tagline() {
    let t = Term {
        wt_session: true,
        no_color: true,
        ..tty()
    };
    let banner = banner(&t, "9.9.9").unwrap();
    assert!(banner.contains("radii 9.9.9"));
    assert!(banner.contains(TAGLINE));
    assert_eq!(banner.lines().count(), MARK_BRAILLE.lines().count());
}

fn strip(s: String) -> Vec<String> {
    s.lines()
        .map(|l| {
            l.chars()
                .scan(false, |esc, c| {
                    if c == '\u{1b}' {
                        *esc = true;
                    } else if *esc && c == 'm' {
                        *esc = false;
                        return Some(None);
                    }
                    Some(if *esc { None } else { Some(c) })
                })
                .flatten()
                .collect::<String>()
        })
        .collect::<Vec<_>>()
}

#[test]
fn tinting_the_hub_does_not_shift_the_wordmark() {
    let plain = Term {
        wt_session: true,
        no_color: true,
        ..tty()
    };
    let tinted = Term {
        wt_session: true,
        ..tty()
    };
    assert_eq!(
        strip(banner(&plain, "0.1.0").unwrap()),
        strip(banner(&tinted, "0.1.0").unwrap())
    );
    assert_ne!(banner(&plain, "0.1.0"), banner(&tinted, "0.1.0"));
}

#[test]
fn both_cuts_are_the_same_grid() {
    let braille: Vec<&str> = MARK_BRAILLE.lines().collect();
    let ascii: Vec<&str> = MARK_ASCII.lines().collect();
    assert_eq!(braille.len(), 14);
    assert_eq!(ascii.len(), 14);
    assert!(braille.iter().all(|l| l.chars().count() <= 28));
    assert!(ascii.iter().all(|l| l.chars().count() <= 28));
    // The ASCII cut has to survive a byte-oriented terminal.
    assert!(MARK_ASCII.is_ascii(), "the ascii cut must be ascii");
}

/// Both marks meet what the law on colour asks of a mark.
#[test]
fn both_cuts_end_in_a_visible_character() {
    for mark in [MARK_BRAILLE, MARK_ASCII] {
        let last = mark.lines().last().unwrap();
        assert!(!last.chars().last().unwrap().is_whitespace());
        assert!(!mark.contains('\u{1b}'));
    }
}

#[test]
fn the_words_stand_beside_the_middle_rows() {
    let t = Term {
        banner_override: Some("ascii".into()),
        ..Term::default()
    };
    let text = banner(&t, "1.2.3").unwrap();
    let lines: Vec<&str> = text.lines().collect();
    let rows: Vec<&str> = MARK_ASCII.lines().collect();
    let width = rows.iter().map(|r| r.len()).max().unwrap();
    let pad = |row: &str| " ".repeat(width - row.len() + 4);
    assert_eq!(lines[6], format!("{}{}radii 1.2.3", rows[6], pad(rows[6])));
    assert_eq!(lines[7], format!("{}{}{TAGLINE}", rows[7], pad(rows[7])));
    assert_eq!(lines[0], rows[0]);
    assert_eq!(lines[13], rows[13]);
}

#[test]
fn an_emptied_terminal_name_is_a_dumb_one() {
    let t = Term {
        term: Some(String::new()),
        ..tty()
    };
    assert_eq!(t.cut(), Cut::Blank);
    let t = Term {
        locale: Some("de_DE.utf8".into()),
        ..tty()
    };
    assert_eq!(t.clone().cut(), Cut::Braille);
}

#[test]
fn colours_are_written_as_codes_round_the_text() {
    let t = tty();
    assert_eq!(
        tinted("x", Tone::Reach, &t),
        "\u{1b}[38;2;22;199;154mx\u{1b}[0m"
    );
    assert_eq!(
        tinted("x", Tone::Severed, &t),
        "\u{1b}[38;2;242;103;74mx\u{1b}[0m"
    );
    assert_eq!(dim("x", &t), "\u{1b}[38;2;124;139;147mx\u{1b}[0m");
    assert_eq!(literal("x", &t), "\u{1b}[1mx\u{1b}[0m");
    assert_eq!(
        heading("x", &t),
        "\u{1b}[1m\u{1b}[38;2;124;139;147mx\u{1b}[0m"
    );
    for text in [
        tinted("x", Tone::Reach, &plain_tty()),
        dim("x", &plain_tty()),
        literal("x", &plain_tty()),
        heading("x", &plain_tty()),
    ] {
        assert_eq!(text, "x");
    }
}

#[test]
fn the_legend_explains_the_signs() {
    assert_eq!(
        legend(&plain_tty()),
        "\u{25cf} reachable   \u{25d0} severed   \u{25cb} unprobed"
    );
    assert_eq!(reach_glyph(None, &plain_tty()), "\u{25cb}");
    assert_eq!(reach_glyph(Some(false), &plain_tty()), "\u{25d0}");
    assert!(reach_glyph(Some(true), &tty()).contains("22;199;154"));
}

#[test]
fn the_format_follows_the_flag_then_the_terminal() {
    assert_eq!(radii::brand::format(&tty(), true), Format::Json);
    assert_eq!(radii::brand::format(&tty(), false), Format::Pretty);
    assert_eq!(radii::brand::format(&Term::default(), false), Format::Plain);
}

#[test]
fn a_bare_host_and_port_gets_a_scheme() {
    assert_eq!(
        endpoint("localhost:8080", "/health"),
        "http://localhost:8080/health"
    );
    assert_eq!(
        endpoint("127.0.0.1:80", "/health"),
        "http://127.0.0.1:80/health"
    );
}

#[test]
fn an_explicit_scheme_is_left_alone() {
    assert_eq!(
        endpoint("https://head.example.com", "/health"),
        "https://head.example.com/health"
    );
    assert_eq!(
        endpoint("http://localhost:8080", "/_radii/decision"),
        "http://localhost:8080/_radii/decision"
    );
}

#[test]
fn a_trailing_slash_does_not_double_up() {
    assert_eq!(
        endpoint("http://localhost:8080/", "/health"),
        "http://localhost:8080/health"
    );
    assert_eq!(
        endpoint("localhost:8080/", "/health"),
        "http://localhost:8080/health"
    );
}

#[test]
fn graph_states_colour_by_what_they_mean_for_routing() {
    // Without colour every state renders as itself, so the mapping is
    // asserted on the tinted variant instead.
    let term = Term {
        stdout_is_tty: true,
        wt_session: true,
        ..Term::default()
    };
    assert!(graph_state("fresh", &term).contains("22"), "fresh is Reach");
    assert!(
        graph_state("stale", &term).contains("242"),
        "stale is Severed"
    );
    assert!(
        graph_state("never_refreshed", &term).contains("242"),
        "never_refreshed is Severed"
    );
    assert!(
        graph_state("not_configured", &term).contains("124"),
        "not_configured is Unknown"
    );
}

#[test]
fn health_is_shown_for_scripts_and_for_readers() {
    assert_eq!(
        health_line(503, "degraded", "stale"),
        "health http_status=503 status=degraded graph=stale"
    );
    assert_eq!(
        health_lines(200, "ok", "fresh", &plain_tty()),
        vec!["\u{25cf} ok  http 200", "  graph fresh"]
    );
    assert_eq!(
        health_lines(503, "degraded", "stale", &plain_tty())[0],
        "\u{25d0} degraded  http 503"
    );
}

fn decision(host: Option<&str>, candidates: &[&str]) -> Decision {
    Decision {
        source_ip: "127.0.0.1:5".into(),
        host: host.map(String::from),
        backend: "a:1".into(),
        candidates: candidates.iter().map(|c| c.to_string()).collect(),
        decision_reason: "graph_route".into(),
    }
}

#[test]
fn a_decision_is_shown_for_scripts_and_for_readers() {
    assert_eq!(
        decision_line(&decision(Some("h"), &["a:1", "b:1"])),
        "decision host=h backend=a:1 reason=graph_route candidates=a:1,b:1"
    );
    assert_eq!(
        decision_line(&decision(None, &[])),
        "decision host=- backend=a:1 reason=graph_route candidates=-"
    );
    assert_eq!(
        decision_lines(&decision(None, &["a:1", "b:1", "c:1"]), &plain_tty()),
        vec![
            "\u{25cf} a:1",
            "  host    (none)",
            "  reason  graph_route",
            "  source  127.0.0.1:5",
            "  failover",
            "    2.  b:1",
            "    3.  c:1",
        ]
    );
    assert_eq!(decision_lines(&decision(Some("h"), &["a:1"]), &plain_tty()).len(), 4);
}

fn report(from: &str, target: &str, reachable: bool, rtt: Option<u32>) -> GraphReport {
    GraphReport {
        from: from.into(),
        target: target.into(),
        protocol: "radii".into(),
        reachable,
        rtt_ms: rtt,
    }
}

#[test]
fn json_keeps_the_wire_field_names_and_the_node_state() {
    let nodes = [NodeInfo {
        node_id: "node-a".into(),
        roles: vec!["crawl".into()],
        listen_addrs: vec![ListenAddr {
            addr: "127.0.0.1:2224".into(),
            role: "relay".into(),
        }],
    }];
    let reports = [report("node-a", "node-b", true, Some(40))];
    let shown = shown_nodes(&nodes, &reports);
    assert_eq!(shown.len(), 1);
    assert_eq!(shown[0].node_id, "node-a");
    assert_eq!(shown[0].roles, vec!["crawl".to_string()]);
    assert_eq!(shown[0].state, "reachable");
    assert_eq!(
        shown[0].listen_addrs,
        vec![("relay".to_string(), "127.0.0.1:2224".to_string())]
    );
}

#[test]
fn a_node_with_no_observation_is_unprobed_not_severed() {
    let reports = [report("a", "b", true, Some(40))];
    // `c` is in the registry from a hello but nothing has probed it.
    assert_eq!(node_state("c", &reports), None);
    assert_eq!(state_label(None), "unprobed");
}

#[test]
fn one_live_path_makes_a_node_reachable_even_beside_a_dead_one() {
    let dead_first = [
        report("a", "c", false, None),
        report("b", "c", true, Some(9)),
    ];
    let live_first = [
        report("b", "c", true, Some(9)),
        report("a", "c", false, None),
    ];
    assert_eq!(node_state("c", &dead_first), Some(true));
    assert_eq!(node_state("c", &live_first), Some(true));
    assert_eq!(state_label(Some(true)), "reachable");
}

#[test]
fn only_dead_observations_make_a_node_severed() {
    let reports = [report("a", "c", false, None), report("b", "c", false, None)];
    assert_eq!(node_state("c", &reports), Some(false));
    assert_eq!(state_label(Some(false)), "severed");
}

#[test]
fn the_renderers_survive_an_empty_and_a_ragged_graph() {
    let term = plain_tty();
    assert_eq!(
        pretty_lines(&[], &[], &term),
        vec!["crawl holds no nodes and no links"]
    );
    assert!(plain_lines(&[], &[]).is_empty());

    let nodes = [
        NodeInfo {
            node_id: "n".into(),
            roles: vec![],
            listen_addrs: vec![],
        },
        NodeInfo {
            node_id: "a-much-longer-node-id".into(),
            roles: vec!["crawl".into(), "head".into()],
            listen_addrs: vec![ListenAddr {
                addr: "[::1]:2224".into(),
                role: "relay".into(),
            }],
        },
    ];
    let reports = [
        report("n", "a-much-longer-node-id", false, None),
        report("x", "y", true, Some(7)),
    ];
    assert_eq!(
        pretty_lines(&nodes, &reports, &term),
        vec![
            "Nodes",
            "  \u{25d0} n                      no roles",
            "  \u{25d0} a-much-longer-node-id  crawl, head",
            "                           relay: [::1]:2224",
            "",
            "Links",
            "  \u{25d0} n \u{2192} a-much-longer-node-id  radii     \u{2014}",
            "  \u{25cf} x \u{2192} y                      radii     7 ms",
        ]
    );
    assert_eq!(
        plain_lines(&nodes, &reports),
        vec![
            "node id=n state=severed roles= addrs=",
            "node id=a-much-longer-node-id state=severed roles=crawl,head addrs=relay=[::1]:2224",
            "link from=n target=a-much-longer-node-id protocol=radii reachable=false rtt_ms=-",
            "link from=x target=y protocol=radii reachable=true rtt_ms=7",
        ]
    );
}

#[test]
fn an_absent_rtt_prints_as_a_dash_not_an_empty_value() {
    let r = report("a", "b", false, None);
    assert_eq!(rtt(r.rtt_ms), "-");
    assert_eq!(rtt(Some(0)), "0");
}

fn commands() -> Vec<Command> {
    ["hello", "report", "graph", "plan", "health", "decision"]
        .iter()
        .map(|name| Command {
            name: name.to_string(),
            about: format!("about {name}"),
        })
        .collect()
}

/// A command that is missing from the groups would vanish from the help.
#[test]
fn every_command_is_grouped() {
    for command in commands() {
        let count = groups()
            .iter()
            .filter(|g| g.names.contains(&command.name.as_str()))
            .count();
        assert_eq!(
            count, 1,
            "{} should appear in exactly one help group",
            command.name
        );
    }
}

#[test]
fn the_grouped_help_lists_every_command_with_its_description() {
    let sections = command_sections(&commands(), &Term::default());
    for command in commands() {
        assert!(
            sections.contains(&command.name) && sections.contains(&command.about),
            "{} missing from the help sections",
            command.name
        );
    }
    assert!(sections.contains("Discovery"));
    assert!(sections.contains("Routing"));
    assert_eq!(
        sections,
        "Discovery\n  hello     about hello\n  report    about report\n  graph     about graph\n\n\
         Routing\n  plan      about plan\n\n\
         Control plane\n  health    about health\n  decision  about decision"
    );
    let some = command_sections(&commands()[3..4].iter().map(|c| Command {
        name: c.name.clone(),
        about: c.about.clone(),
    }).collect(), &Term::default());
    assert_eq!(some, "Discovery\n\nRouting\n  plan      about plan\n\nControl plane");
}

#[test]
fn the_help_puts_commands_before_options() {
    assert_eq!(
        help_template(&Term::default()),
        "{before-help}{usage-heading} {usage}{after-help}\n\nOptions\n{options}\n\n\
         \u{25cf} reachable   \u{25d0} severed   \u{25cb} unprobed\n"
    );
}

#[test]
fn tls_args_none_means_plaintext() {
    assert!(matches!(
        tls_choice(None, None, None, None),
        TlsChoice::Plaintext
    ));
}

#[test]
fn tls_args_reject_partial_configuration() {
    assert!(matches!(
        tls_choice(Some("cert.pem".into()), None, None, None),
        TlsChoice::Partial
    ));
    match tls_choice(
        Some("c".into()),
        Some("k".into()),
        Some("a".into()),
        Some("r".into()),
    ) {
        TlsChoice::Identity(config) => {
            assert_eq!(config.key.to_str(), Some("k"));
            assert_eq!(config.crl.unwrap().to_str(), Some("r"));
        }
        _ => panic!("all three were given"),
    }
}

#[test]
fn parses_role_equals_addr() {
    let parsed = parse_listen_addr("relay=10.0.0.5:2224").unwrap();
    assert_eq!(parsed.role, "relay");
    assert_eq!(parsed.addr, "10.0.0.5:2224");
}

#[test]
fn keeps_ipv6_colons_in_the_address() {
    let parsed = parse_listen_addr("http=[::1]:9000").unwrap();
    assert_eq!(parsed.addr, "[::1]:9000");
    assert_eq!(parse_listen_addr("a=b=c").unwrap().addr, "b=c");
}

#[test]
fn rejects_a_value_without_a_role() {
    assert!(parse_listen_addr("10.0.0.5:2224").is_err());
    assert!(parse_listen_addr("=10.0.0.5:2224").is_err());
    assert!(parse_listen_addr("relay=").is_err());
    let refused = parse_listen_addr("x").unwrap_err();
    assert_eq!(refused.fault, ListenAddrFault::NoRole);
    assert_eq!(refused.describe(), "expected role=addr, got \"x\"");
    let refused = parse_listen_addr("=\n").unwrap_err();
    assert_eq!(refused.fault, ListenAddrFault::EmptyPart);
    assert_eq!(
        refused.describe(),
        "expected role=addr with both parts set, got \"=\\n\""
    );
}

fn candidate(hops: &[&str], score: u128) -> RouteCandidate {
    RouteCandidate {
        hops: hops.iter().map(|h| NodeId(h.to_string())).collect(),
        protocol: ProtocolId::new("radii"),
        score,
    }
}

#[test]
fn routes_are_shown_for_scripts_and_for_readers() {
    let routes = vec![candidate(&["a", "b", "c"], 110), candidate(&["a", "c"], 12345)];
    assert_eq!(
        plan_lines(&routes),
        vec![
            "score=110.0 protocol=radii path=a -> b -> c",
            "score=12345.0 protocol=radii path=a -> c",
        ]
    );
    assert_eq!(
        plan_pretty_lines(&routes, &plain_tty()),
        vec![
            "\u{25cf}  1   110.0  radii     a \u{2192} b \u{2192} c",
            "\u{25cf}  2  12345.0  radii     a \u{2192} c",
        ]
    );
    assert_eq!(plan_pretty_lines(&vec![], &plain_tty()), vec!["no route"]);
    assert!(plan_lines(&vec![]).is_empty());
}

#[test]
fn a_plan_from_a_partial_view_says_so() {
    assert_eq!(partial_view_warning(0), None);
    assert_eq!(
        partial_view_warning(100).as_deref(),
        Some("warning: the graph exceeded the local size cap; 100 link(s) dropped, planning from a partial view")
    );
}

#[test]
fn an_ack_is_shown_by_its_status() {
    let ack = RadiiMessage::Ack { status: "hello_received".into() };
    assert_eq!(reply_line(&ack), "ack=hello_received");
    assert_eq!(reply_line(&RadiiMessage::GraphQuery), "reply=GraphQuery");
}

#[test]
fn the_locale_is_the_first_variable_that_says_something() {
    let set = |value: &str| Some(value.to_string());
    assert_eq!(locale(set("a"), set("b"), set("c")), set("a"));
    assert_eq!(locale(set(""), set("b"), set("c")), set("b"));
    assert_eq!(locale(None, set(""), set("c")), set("c"));
    assert_eq!(locale(None, None, set("")), None);
    assert_eq!(locale(None, None, None), None);
}
