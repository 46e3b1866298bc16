//! Compiling a policy, and what a plan is refused for.

use throughline::policy::{
    daddr_shown, Host, Path, Policy, Rule, Selector, MARK_CHAIN, MASQ_CHAIN, NAT_CHAIN, TABLE,
};
use throughline::preflight::Refusal;

fn host() -> Host {
    Host {
        interfaces: vec!["eth0".into(), "wg0".into()],
        tor_trans_port: Some(9040),
        tor_dns_port: Some(9053),
        tor_uid: Some(107),
        admin_peers: vec!["198.51.100.7".into()],
        tunnel_endpoints: vec!["203.0.113.9".into()],
        rp_filter: vec![("all".into(), 2), ("wg0".into(), 2), ("eth0".into(), 2)],
        cgroups: vec![
            "system.slice/nginx.service".into(),
            "system.slice/tor.service".into(),
        ],
    }
}

#[test]
fn the_session_administering_the_host_is_excluded_before_anything_else() {
    let p = Policy {
        rules: vec![Rule {
            selector: Selector::Unit("nginx.service".into()),
            path: Path::Tor,
        }],
        default_path: Path::Direct,
    };
    let plan = p.compile(&host());
    assert!(plan.nft.contains("ip daddr 198.51.100.7 return"));
    let admin = plan.nft.find("198.51.100.7").unwrap();
    let first_rule = plan.nft.find("redirect to :9040").unwrap();
    assert!(admin < first_rule, "exclusion must precede the redirect:\n{}", plan.nft);
    assert!(plan.preflight(&p, &host()).is_empty());
}

#[test]
fn a_plan_that_would_strand_the_admin_is_refused() {
    let blind = Host { admin_peers: vec![], ..host() };
    let p = Policy {
        rules: vec![Rule { selector: Selector::Unit("nginx.service".into()), path: Path::Tor }],
        default_path: Path::Direct,
    };
    let plan = p.compile(&blind);
    let refusals = plan.preflight(&p, &host());
    assert_eq!(
        refusals,
        vec![Refusal::WouldStrandAdmin { peer: "198.51.100.7".into() }]
    );
    assert!(refusals[0].explain().contains("no second one"));
}

#[test]
fn tor_traffic_is_excluded_from_its_own_redirect() {
    let p = Policy {
        rules: vec![Rule { selector: Selector::User(1000), path: Path::Tor }],
        default_path: Path::Direct,
    };
    let plan = p.compile(&host());
    assert!(plan.nft.contains("meta skuid 107 return"), "{}", plan.nft);
    let tor_return = plan.nft.find("meta skuid 107 return").unwrap();
    let redirect = plan.nft.find("redirect to :9040").unwrap();
    assert!(tor_return < redirect);
}

#[test]
fn dns_is_routed_with_the_tcp_it_belongs_to() {
    let p = Policy {
        rules: vec![Rule { selector: Selector::User(1000), path: Path::Tor }],
        default_path: Path::Direct,
    };
    let plan = p.compile(&host());
    assert!(plan.nft.contains("udp dport 53 redirect to :9053"), "{}", plan.nft);
    assert!(plan.torrc.iter().any(|l| l.starts_with("DNSPort")));
    assert!(plan.notes.iter().any(|n| n.contains("plaintext")));
}

#[test]
fn tor_via_vpn_puts_tor_in_the_tunnel_not_the_application() {
    let p = Policy {
        rules: vec![],
        default_path: Path::TorViaVpn { interface: "wg0".into() },
    };
    let plan = p.compile(&host());
    assert!(
        plan.nft.contains("meta skuid 107 meta mark set"),
        "Tor's own socket must be the marked one:\n{}",
        plan.nft
    );
    assert!(plan.ip.iter().any(|c| c.contains("dev wg0")));
    assert!(plan.notes.iter().any(|n| n.contains("guard sees the tunnel")));
}

#[test]
fn a_tunnels_own_endpoint_stays_outside_the_tunnel() {
    let p = Policy { rules: vec![], default_path: Path::Vpn { interface: "wg0".into() } };
    let plan = p.compile(&host());
    assert!(plan.nft.contains("ip daddr 203.0.113.9 return"), "{}", plan.nft);
}

#[test]
fn a_missing_interface_is_refused_rather_than_emitted() {
    let p = Policy { rules: vec![], default_path: Path::Vpn { interface: "tun9".into() } };
    let plan = p.compile(&host());
    let r = plan.preflight(&p, &host());
    assert!(r.contains(&Refusal::NoSuchInterface {
        interface: "tun9".into(),
        path: "vpn:tun9".into()
    }));
    assert!(r[0].explain().contains("does not create interfaces"));
}

#[test]
fn tor_without_a_transparent_port_is_refused_with_the_lines_to_add() {
    let bare = Host { tor_trans_port: None, tor_dns_port: None, ..host() };
    let p = Policy { rules: vec![], default_path: Path::Tor };
    let plan = p.compile(&bare);
    let r = plan.preflight(&p, &bare);
    assert!(r.contains(&Refusal::TorNotTransparent { missing: "TransPort" }));
    assert!(r.contains(&Refusal::TorNotTransparent { missing: "DNSPort" }));
    assert!(plan.torrc.iter().any(|l| l.contains("TransPort")));
}

#[test]
fn a_rule_for_a_cgroup_that_is_not_there_is_refused_before_it_breaks_everything() {
    let p = Policy {
        rules: vec![Rule {
            selector: Selector::Unit("firefox.service".into()),
            path: Path::Tor,
        }],
        default_path: Path::Direct,
    };
    let plan = p.compile(&host());
    assert!(plan.preflight(&p, &host()).contains(&Refusal::NoSuchCgroup {
        path: "system.slice/firefox.service".into()
    }));
    let ok = Policy {
        rules: vec![Rule {
            selector: Selector::Unit("nginx.service".into()),
            path: Path::Tor,
        }],
        default_path: Path::Direct,
    };
    assert!(ok.compile(&host()).preflight(&ok, &host()).is_empty());
}

#[test]
fn a_cgroup_selector_matches_at_its_own_depth() {
    assert_eq!(
        Selector::Cgroup("system.slice/tor.service".into()).nft_match(),
        "socket cgroupv2 level 2 \"system.slice/tor.service\""
    );
    assert_eq!(
        Selector::Cgroup("/user.slice/user-1000.slice/session-3.scope".into()).nft_match(),
        "socket cgroupv2 level 3 \"user.slice/user-1000.slice/session-3.scope\""
    );
    assert_eq!(
        Selector::Unit("nginx.service".into()).nft_match(),
        "socket cgroupv2 level 2 \"system.slice/nginx.service\""
    );
}

#[test]
fn two_rules_for_one_sender_are_refused_not_silently_ordered() {
    let p = Policy {
        rules: vec![
            Rule { selector: Selector::User(1000), path: Path::Tor },
            Rule { selector: Selector::User(1000), path: Path::Direct },
        ],
        default_path: Path::Direct,
    };
    let plan = p.compile(&host());
    let r = plan.preflight(&p, &host());
    assert!(r.contains(&Refusal::DuplicateSelector { selector: "uid 1000".into() }));
}

#[test]
fn established_connections_are_never_captured() {
    let p = Policy { rules: vec![], default_path: Path::Vpn { interface: "wg0".into() } };
    let plan = p.compile(&host());
    assert!(plan.nft.contains("ct state established,related return"));
}

#[test]
fn the_undo_removes_the_routing_half_as_well_as_the_ruleset() {
    let p = Policy { rules: vec![], default_path: Path::Vpn { interface: "wg0".into() } };
    let plan = p.compile(&host());
    assert_eq!(plan.revert[0], format!("nft delete table inet {TABLE}"));
    assert!(plan.revert.iter().any(|c| c.starts_with("ip rule del fwmark")), "{:?}", plan.revert);
    assert!(plan.revert.iter().any(|c| c.starts_with("ip route flush table")), "{:?}", plan.revert);
    assert_eq!(plan.revert.len(), plan.ip.len() + 1, "{:?}", plan.revert);
}

#[test]
fn a_policy_that_changes_nothing_has_nothing_to_undo_but_the_table() {
    let p = Policy { rules: vec![], default_path: Path::Direct };
    assert_eq!(p.compile(&host()).revert, vec![format!("nft delete table inet {TABLE}")]);
}

#[test]
fn the_source_address_is_made_to_match_the_interface_it_leaves_by() {
    let p = Policy { rules: vec![], default_path: Path::Vpn { interface: "wg0".into() } };
    let plan = p.compile(&host());
    assert!(plan.nft.contains("type nat hook postrouting priority srcnat"), "{}", plan.nft);
    assert!(plan.nft.contains("oifname \"wg0\" masquerade"), "{}", plan.nft);
}

#[test]
fn no_masquerade_chain_when_nothing_is_rerouted() {
    let p = Policy { rules: vec![], default_path: Path::Direct };
    let plan = p.compile(&host());
    assert!(!plan.nft.contains("masquerade"), "{}", plan.nft);
}

#[test]
fn strict_reverse_path_filtering_is_refused_before_it_breaks_everything() {
    let strict = Host {
        rp_filter: vec![("all".into(), 1), ("wg0".into(), 1)],
        ..host()
    };
    let p = Policy { rules: vec![], default_path: Path::Vpn { interface: "wg0".into() } };
    let r = p.compile(&strict).preflight(&p, &strict);
    assert!(r.contains(&Refusal::StrictReversePath { interface: "wg0".into() }), "{r:?}");
    assert!(r[0].explain().contains("rp_filter=2"));
}

#[test]
fn loose_on_all_beats_strict_on_the_interface() {
    let h = Host { rp_filter: vec![("all".into(), 2), ("wg0".into(), 1)], ..host() };
    let p = Policy { rules: vec![], default_path: Path::Vpn { interface: "wg0".into() } };
    assert!(
        !p.compile(&h).preflight(&p, &h).iter().any(|r|
            matches!(r, Refusal::StrictReversePath { .. })),
        "refused a plan that the kernel would route fine"
    );
}

#[test]
fn all_equals_one_makes_every_interface_strict() {
    let strict = Host {
        rp_filter: vec![("all".into(), 1), ("wg0".into(), 1)],
        ..host()
    };
    let p = Policy { rules: vec![], default_path: Path::Vpn { interface: "wg0".into() } };
    let r = p.compile(&strict).preflight(&p, &strict);
    assert!(r.contains(&Refusal::StrictReversePath { interface: "wg0".into() }), "{r:?}");
}

#[test]
fn every_generated_chain_name_is_prefixed_so_it_cannot_be_a_keyword() {
    for name in [NAT_CHAIN, MARK_CHAIN, MASQ_CHAIN] {
        assert!(name.starts_with("tl_"), "{name} is not prefixed");
    }
    let p = Policy {
        rules: vec![Rule {
            selector: Selector::Unit("nginx.service".into()),
            path: Path::Tor,
        }],
        default_path: Path::Vpn { interface: "wg0".into() },
    };
    let nft = p.compile(&host()).nft;
    for line in nft.lines().filter(|l| l.trim_start().starts_with("chain ")) {
        let name = line.split_whitespace().nth(1).unwrap();
        assert!(name.starts_with("tl_"), "chain {name} is not prefixed: {line}");
    }
}

#[test]
fn a_connections_route_survives_past_its_first_packet() {
    let p = Policy { rules: vec![], default_path: Path::Vpn { interface: "wg0".into() } };
    let nft = p.compile(&host()).nft;
    let restore = nft.find("ct mark != 0x0 meta mark set ct mark return")
        .expect("connection mark is not restored");
    let leave_alone = nft.find("ct state established,related return")
        .expect("no established rule");
    let save = nft.find("ct mark set meta mark").expect("decision is never saved");
    assert!(
        restore < leave_alone,
        "restoring must come first, or an established packet returns before it is \
         recognised:\n{nft}"
    );
    assert!(save > leave_alone, "the save must come after the selectors:\n{nft}");
}

#[test]
fn nothing_is_saved_onto_a_connection_when_nothing_is_rerouted() {
    let p = Policy { rules: vec![], default_path: Path::Direct };
    let nft = p.compile(&host()).nft;
    assert!(!nft.contains("ct mark set meta mark"), "{nft}");
}

#[test]
fn an_ipv6_session_is_excluded_in_a_way_that_can_actually_match() {
    let h = Host {
        admin_peers: vec!["2001:db8::7".into(), "198.51.100.7".into()],
        ..host()
    };
    let p = Policy { rules: vec![], default_path: Path::Vpn { interface: "wg0".into() } };
    let nft = p.compile(&h).nft;
    assert!(nft.contains("ip6 daddr 2001:db8::7 return"), "{nft}");
    assert!(nft.contains("ip daddr 198.51.100.7 return"), "{nft}");
    assert!(p.compile(&h).preflight(&p, &h).is_empty());
}

#[test]
fn a_v4_mapped_peer_is_matched_as_the_v4_it_is_on_the_wire() {
    let h = Host { admin_peers: vec!["::ffff:198.51.100.7".into()], ..host() };
    let p = Policy { rules: vec![], default_path: Path::Vpn { interface: "wg0".into() } };
    let nft = p.compile(&h).nft;
    assert!(nft.contains("ip daddr 198.51.100.7 return"), "{nft}");
    assert!(!nft.contains("ip6 daddr"), "{nft}");
}

#[test]
fn an_address_that_is_not_an_address_is_visible_not_silently_dropped() {
    let h = Host { admin_peers: vec!["my-laptop.local".into()], ..host() };
    let p = Policy { rules: vec![], default_path: Path::Vpn { interface: "wg0".into() } };
    let plan = p.compile(&h);
    assert!(plan.nft.contains("unparseable address"), "{}", plan.nft);
    let r = plan.preflight(&p, &h);
    assert!(
        r.contains(&Refusal::UnparseablePeer { peer: "my-laptop.local".into() }),
        "must not pass silently: {r:?}"
    );
    assert!(r[0].explain().contains("nftables matches addresses"));
}

#[test]
fn re_applying_replaces_the_table_instead_of_stacking_onto_it() {
    let p = Policy { rules: vec![], default_path: Path::Vpn { interface: "wg0".into() } };
    let nft = p.compile(&host()).nft;
    let create = nft.find(&format!("table inet {TABLE}\n")).expect("no bare create");
    let delete = nft.find(&format!("delete table inet {TABLE}")).expect("no delete");
    let body = nft.find(&format!("table inet {TABLE} {{")).expect("no body");
    assert!(create < delete && delete < body, "{nft}");
}

#[test]
fn direct_is_the_absence_of_a_mark_not_a_mark_of_its_own() {
    let p = Policy { rules: vec![], default_path: Path::Direct };
    let plan = p.compile(&host());
    assert!(plan.marks.is_empty(), "{:?}", plan.marks);
    assert!(plan.ip.is_empty(), "nothing to route");
}

#[test]
fn a_plan_is_exact() {
    let p = Policy {
        rules: vec![Rule { selector: Selector::User(1000), path: Path::Tor }],
        default_path: Path::Vpn { interface: "wg0".into() },
    };
    let h = Host { admin_peers: vec!["2001:db8::7".into()], tor_dns_port: None, ..host() };
    let plan = p.compile(&h);
    let exclusions = "    # Exclusions first. Order is the safety.\n    \
        # A connection this policy already decided about keeps that decision.\n    \
        ct mark != 0x0 meta mark set ct mark return\n    oif lo return\n    \
        ct state established,related return   # a connection that predates this policy\n    \
        ip6 daddr 2001:db8::7 return   # the session administering this host\n    \
        ip daddr 203.0.113.9 return   # a tunnel's own endpoint\n";
    assert_eq!(
        plan.nft,
        format!(
            "# generated by throughline\ntable inet throughline\ndelete table inet throughline\n\
             table inet throughline {{\n  chain tl_via_tor {{\n    \
             type nat hook output priority dstnat; policy accept;\n{exclusions}    \
             # Tor's own packets, or they never reach a relay.\n    meta skuid 107 return\n    \
             meta skuid 1000 meta l4proto tcp redirect to :9040\n    \
             meta skuid 1000 udp dport 53 redirect to :9053\n    meta skuid 1000 return\n  }}\n  \
             chain tl_routing {{\n    \
             type route hook output priority mangle; policy accept;\n{exclusions}    \
             meta skuid 1000 meta skuid != 107 return\n    \
             meta mark set 0x7401   # default for everything else\n    \
             # Remember it, so the rest of the connection follows.\n    \
             meta mark != 0x0 ct mark set meta mark\n  }}\n  chain tl_masquerade {{\n    \
             type nat hook postrouting priority srcnat; policy accept;\n    \
             oifname \"wg0\" masquerade\n  }}\n}}\n"
        )
    );
    assert_eq!(
        plan.ip,
        vec![
            "ip rule add fwmark 0x7401 lookup 7401 priority 1000",
            "ip route add default dev wg0 table 7401",
        ]
    );
    assert_eq!(
        plan.revert,
        vec![
            "nft delete table inet throughline",
            "ip route flush table 7401",
            "ip rule del fwmark 0x7401 lookup 7401 priority 1000",
        ]
    );
    assert_eq!(
        plan.torrc,
        vec![
            "TransPort 127.0.0.1:9040",
            "DNSPort 127.0.0.1:9053",
            "AutomapHostsOnResolve 1",
            "AutomapHostsSuffixes .onion,.exit",
        ]
    );
    assert_eq!(plan.marks, vec![("vpn:wg0".to_owned(), 0x7401)]);
}

#[test]
fn marks_are_counted_as_paths_come_and_listed_by_label() {
    let vpn = |i: &str| Path::Vpn { interface: i.into() };
    let p = Policy {
        rules: vec![
            Rule { selector: Selector::User(1), path: vpn("wg9") },
            Rule { selector: Selector::User(2), path: vpn("wg0") },
            Rule { selector: Selector::User(3), path: vpn("wg9") },
        ],
        default_path: Path::TorViaVpn { interface: "wg0".into() },
    };
    let plan = p.compile(&host());
    assert_eq!(
        plan.marks,
        vec![
            ("tor-via-wg0".to_owned(), 0x7403),
            ("vpn:wg0".to_owned(), 0x7402),
            ("vpn:wg9".to_owned(), 0x7401),
        ]
    );
    assert_eq!(plan.ip[0], "ip rule add fwmark 0x7403 lookup 7403 priority 1002");
    assert_eq!(plan.ip.len(), 6);
    assert_eq!(plan.revert.len(), 7);
}

#[test]
fn a_plan_is_rendered_to_be_read() {
    let p = Policy { rules: vec![], default_path: Path::TorViaVpn { interface: "wg0".into() } };
    let plan = p.compile(&host());
    assert_eq!(
        plan.render(),
        format!(
            "{}\n# routing\n{}\n{}\n\n# /etc/tor/torrc must contain\n{}\n{}\n{}\n{}\n\n\
             # note: {}\n\n# note: {}\n",
            plan.nft,
            plan.ip[0],
            plan.ip[1],
            plan.torrc[0],
            plan.torrc[1],
            plan.torrc[2],
            plan.torrc[3],
            plan.notes[0],
            plan.notes[1]
        )
    );
}

#[test]
fn every_refusal_has_its_reason() {
    let bad = Policy {
        rules: vec![
            Rule { selector: Selector::Unit("  ".into()), path: Path::Direct },
            Rule { selector: Selector::User(1), path: Path::Direct },
            Rule { selector: Selector::User(1), path: Path::Tor },
        ],
        default_path: Path::Vpn { interface: "tun9".into() },
    };
    let h = Host {
        tor_trans_port: None,
        tor_dns_port: None,
        tor_uid: None,
        admin_peers: vec!["laptop".into(), "198.51.100.7".into()],
        tunnel_endpoints: vec!["vpn.example".into()],
        rp_filter: vec![("tun9".into(), 1)],
        ..host()
    };
    let unprotected = Host { admin_peers: vec![], ..h.clone() };
    let found = bad.compile(&unprotected).preflight(&bad, &h);
    assert_eq!(
        found,
        vec![
            Refusal::WouldStrandAdmin { peer: "198.51.100.7".into() },
            Refusal::EmptySelector { selector: "  ".into() },
            Refusal::DuplicateSelector { selector: "uid 1".into() },
            Refusal::NoSuchCgroup { path: "system.slice/  ".into() },
            Refusal::NoSuchInterface { interface: "tun9".into(), path: "vpn:tun9".into() },
            Refusal::TorNotTransparent { missing: "TransPort" },
            Refusal::TorNotTransparent { missing: "DNSPort" },
            Refusal::TorUidUnknown,
            Refusal::StrictReversePath { interface: "tun9".into() },
            Refusal::UnparseablePeer { peer: "laptop".into() },
            Refusal::UnparseablePeer { peer: "vpn.example".into() },
        ]
    );
    assert_eq!(found[1].explain(), "selector \"  \" cannot match any socket");
    assert_eq!(found[1].explain_shown("<x>"), "selector <x> cannot match any socket");
    assert_eq!(
        found[2].explain(),
        "uid 1 is claimed by two rules; the first would win and the second would silently do \
         nothing"
    );
    assert!(found[9].explain().starts_with("\"laptop\" is not an IP address"));
    assert!(found.iter().all(|r| !r.explain().is_empty()));
}

#[test]
fn an_address_is_matched_in_its_own_family() {
    assert_eq!(daddr_shown("198.51.100.7", "?"), "ip daddr 198.51.100.7");
    assert_eq!(daddr_shown("::ffff:198.51.100.7", "?"), "ip daddr 198.51.100.7");
    assert_eq!(daddr_shown("2001:DB8::7", "?"), "ip6 daddr 2001:db8::7");
    assert_eq!(daddr_shown("laptop", "\"laptop\""), "# unparseable address \"laptop\", not excluded");
}

#[test]
fn labels_tell_paths_apart() {
    assert_eq!(Path::Direct.label(), "direct");
    assert_eq!(Path::Tor.label(), "tor");
    assert_eq!(Path::Vpn { interface: "a".into() }.label(), "vpn:a");
    assert_eq!(Path::TorViaVpn { interface: "a".into() }.label(), "tor-via-a");
    assert_eq!(Selector::User(7).label(), "uid 7");
    assert_eq!(Selector::Cgroup("/a/".into()).nft_match(), "socket cgroupv2 level 1 \"a\"");
}

fn vpn(i: &str) -> Path {
    Path::Vpn { interface: i.into() }
}

fn tor_via(i: &str) -> Path {
    Path::TorViaVpn { interface: i.into() }
}

/// The lines of a chain, behind its exclusions.
fn decisions(nft: &str, chain: &str) -> Vec<String> {
    nft.lines()
        .skip_while(|l| *l != format!("  chain {chain} {{"))
        .skip_while(|l| !l.ends_with("endpoint"))
        .skip(1)
        .take_while(|l| *l != "  }")
        .map(|l| l.trim().to_owned())
        .collect()
}

#[test]
fn only_tor_itself_is_marked_on_the_way_through_tor() {
    let p = Policy { rules: vec![], default_path: tor_via("wg0") };
    let nft = p.compile(&host()).nft;
    let marking: Vec<&str> = nft.lines().filter(|l| l.contains("meta mark set 0x7401")).collect();
    assert_eq!(marking, vec!["    meta skuid 107 meta mark set 0x7401"]);
    let by_rule = Policy {
        rules: vec![Rule { selector: Selector::User(1000), path: tor_via("wg0") }],
        default_path: Path::Direct,
    };
    assert_eq!(
        decisions(&by_rule.compile(&host()).nft, MARK_CHAIN),
        vec![
            "meta skuid 1000 meta skuid != 107 return",
            "# Tor itself takes the tunnel; apps take Tor.",
            "meta skuid 107 meta mark set 0x7401",
            "meta skuid 107 ct mark set meta mark return",
            "# Remember it, so the rest of the connection follows.",
            "meta mark != 0x0 ct mark set meta mark",
        ]
    );
    let unknown = Host { tor_uid: None, ..host() };
    assert!(!p.compile(&unknown).nft.contains("meta mark set 0x"));
}

#[test]
fn the_default_is_for_everything_else() {
    let rules = vec![
        Rule { selector: Selector::Unit("nginx.service".into()), path: Path::Direct },
        Rule { selector: Selector::User(1000), path: vpn("wg0") },
        Rule { selector: Selector::User(1001), path: Path::Tor },
    ];
    let p = Policy { rules: rules.clone(), default_path: Path::Tor };
    let nft = p.compile(&host()).nft;
    let nginx = "socket cgroupv2 level 2 \"system.slice/nginx.service\" return";
    assert_eq!(
        decisions(&nft, NAT_CHAIN),
        vec![
            "# Tor's own packets, or they never reach a relay.",
            "meta skuid 107 return",
            nginx,
            "meta skuid 1000 return",
            "meta skuid 1001 meta l4proto tcp redirect to :9040",
            "meta skuid 1001 udp dport 53 redirect to :9053",
            "meta skuid 1001 return",
            "meta l4proto tcp redirect to :9040",
            "udp dport 53 redirect to :9053",
        ]
    );
    let q = Policy { rules, default_path: vpn("wg9") };
    assert_eq!(
        decisions(&q.compile(&host()).nft, MARK_CHAIN),
        vec![
            nginx,
            "meta skuid 1000 meta mark set 0x7401 ct mark set meta mark return",
            "meta skuid 1001 meta skuid != 107 return",
            "meta mark set 0x7402   # default for everything else",
            "# Remember it, so the rest of the connection follows.",
            "meta mark != 0x0 ct mark set meta mark",
        ]
    );
}

#[test]
fn the_worst_comes_first() {
    let p = Policy {
        rules: vec![
            Rule { selector: Selector::User(1000), path: Path::Tor },
            Rule { selector: Selector::User(1000), path: Path::Direct },
        ],
        default_path: Path::Direct,
    };
    let blind = Host { admin_peers: vec![], ..host() };
    let r = p.compile(&blind).preflight(&p, &host());
    assert!(matches!(r[0], Refusal::WouldStrandAdmin { .. }), "{r:?}");
    assert!(matches!(r[1], Refusal::DuplicateSelector { .. }), "{r:?}");
}

#[test]
fn one_sender_is_one_however_it_is_named() {
    let two = |a: Selector, b: Selector| Policy {
        rules: vec![
            Rule { selector: a, path: Path::Tor },
            Rule { selector: b, path: Path::Direct },
        ],
        default_path: Path::Direct,
    };
    let duplicates = |p: &Policy| {
        p.compile(&host())
            .preflight(p, &host())
            .into_iter()
            .filter(|r| matches!(r, Refusal::DuplicateSelector { .. }))
            .count()
    };
    let unit = |u: &str| Selector::Unit(u.into());
    let cgroup = |c: &str| Selector::Cgroup(c.into());
    assert_eq!(duplicates(&two(unit("nginx.service"), cgroup("/system.slice/nginx.service"))), 1);
    assert_eq!(duplicates(&two(cgroup("a/b"), cgroup("/a/b/"))), 1);
    assert_eq!(duplicates(&two(unit("x"), cgroup("x"))), 0);
}
