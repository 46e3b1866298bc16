//! Queries and the answers to them.

use throughline::api::{
    apply_command, decode, esc, host_json, params, parse_path, parse_rule, parse_selector,
    plan_document, plan_json, policy_from_query, policy_parts, Malformed,
};
use throughline::policy::{Host, Path, Plan, Rule, Selector};
use throughline::probe::AdminSession;

fn host() -> Host {
    Host {
        interfaces: vec!["wg0".into()],
        tor_trans_port: Some(9040),
        tor_dns_port: Some(9053),
        tor_uid: Some(105),
        admin_peers: vec![],
        tunnel_endpoints: vec![],
        rp_filter: vec![("all".into(), 2), ("wg0".into(), 2)],
        cgroups: vec!["system.slice/nginx.service".into()],
    }
}

#[test]
fn the_host_json_survives_a_cgroup_name_with_a_quote_in_it() {
    let mut h = host();
    h.cgroups.push("system.slice/ev\"il.service".into());
    let j = host_json(&h, &[], &["system.slice/ev\"il.service".into()]);
    assert!(!j.contains("ev\"il"), "unescaped quote reached the UI: {j}");
    assert!(j.contains("ev\\\"il"), "{j}");
    assert!(j.contains("\"active\""));
}

#[test]
fn a_policy_round_trips_from_a_query_string() {
    let (p, h, bad) = policy_from_query(
        "default=tor&rule=unit:nginx.service=direct&rule=uid:1000=vpn:wg0&admin=203.0.113.7",
        host(),
    );
    assert!(bad.is_empty(), "{bad:?}");
    assert_eq!(p.default_path, Path::Tor);
    assert_eq!(p.rules.len(), 2);
    assert_eq!(p.rules[0].selector, Selector::Unit("nginx.service".into()));
    assert_eq!(p.rules[0].path, Path::Direct);
    assert_eq!(p.rules[1].selector, Selector::User(1000));
    assert_eq!(p.rules[1].path, Path::Vpn { interface: "wg0".into() });
    assert_eq!(h.admin_peers, vec!["203.0.113.7".to_owned()]);
}

#[test]
fn a_selector_containing_a_path_separator_survives_encoding() {
    let (p, _, bad) = policy_from_query(
        "rule=cgroup%3Auser.slice%2Fuser-1000.slice%2Fsession-3.scope=tor",
        host(),
    );
    assert!(bad.is_empty(), "{bad:?}");
    assert_eq!(
        p.rules[0].selector,
        Selector::Cgroup("user.slice/user-1000.slice/session-3.scope".into())
    );
}

#[test]
fn an_unparseable_rule_is_reported_not_dropped() {
    let (p, _, bad) = policy_from_query(
        "rule=unit:nginx.service=teleport&rule=wat:x=tor&rule=nonsense&default=sideways",
        host(),
    );
    assert!(p.rules.is_empty());
    assert_eq!(p.default_path, Path::Direct, "unchanged when unparseable");
    assert_eq!(bad.len(), 4, "{bad:?}");
    assert!(bad.iter().any(|b| b.contains("teleport")));
    assert!(bad.iter().any(|b| b.contains("not <selector>=<path>")));
}

#[test]
fn every_path_spelling_parses_and_nothing_else_does() {
    assert_eq!(parse_path("direct"), Some(Path::Direct));
    assert_eq!(parse_path("tor"), Some(Path::Tor));
    assert_eq!(parse_path("vpn:wg0"), Some(Path::Vpn { interface: "wg0".into() }));
    assert_eq!(
        parse_path("tor-via:wg0"),
        Some(Path::TorViaVpn { interface: "wg0".into() })
    );
    for bad in ["", "vpn", "vpn:", "tor-via:", "TOR", "tor ", "direct:x"] {
        assert_eq!(parse_path(bad), None, "{bad:?}");
    }
}

#[test]
fn the_apply_command_carries_every_part_of_the_policy() {
    let c = apply_command(
        "default=tor&rule=uid%3A1000=vpn%3Awg0&rule=unit%3Anginx.service=direct&admin=203.0.113.7",
    );
    assert!(c.contains("--default tor"), "{c}");
    assert!(c.contains("--rule 'uid:1000=vpn:wg0'"), "{c}");
    assert!(c.contains("--rule 'unit:nginx.service=direct'"), "{c}");
    assert!(c.contains("--admin 203.0.113.7"), "{c}");
    assert!(c.contains("--apply"), "{c}");
    assert!(c.contains("--deadman 120"), "the countdown is not optional: {c}");
}

#[test]
fn a_plan_that_cannot_be_applied_says_so_and_says_why() {
    let (p, h, bad) = policy_from_query("default=tor&admin=203.0.113.7", host());
    let j = plan_json(&p, &h, &bad, "");
    assert!(j.contains("\"applyable\":true"), "{j}");

    let mut bare = host();
    bare.tor_trans_port = None;
    let (p2, h2, bad2) = policy_from_query("default=tor&admin=203.0.113.7", bare);
    let j2 = plan_json(&p2, &h2, &bad2, "");
    assert!(j2.contains("\"applyable\":false"), "{j2}");
    assert!(j2.contains("TransPort"), "{j2}");
}

#[test]
fn the_generated_json_survives_a_hostile_selector() {
    let (p, h, _) = policy_from_query("rule=unit:evil%22name.service=tor", host());
    let j = plan_json(&p, &h, &[], "");
    assert!(!j.contains("evil\"name"), "unescaped quote reached the UI");
    assert!(j.contains("evil\\\"name") || j.contains("evil%22name"), "{j}");
}

#[test]
fn a_malformed_percent_escape_is_left_alone_rather_than_dropped() {
    assert_eq!(decode("a%zzb"), "a%zzb");
    assert_eq!(decode("a%2"), "a%2");
    assert_eq!(decode("a+b%2Fc"), "a b/c");
}

#[test]
fn parameters_are_split_and_decoded() {
    assert_eq!(
        params("a=1&&b=x%3Dy&c&d=+"),
        vec![
            ("a".to_owned(), "1".to_owned()),
            ("b".to_owned(), "x=y".to_owned()),
            ("c".to_owned(), String::new()),
            ("d".to_owned(), " ".to_owned()),
        ]
    );
    assert!(params("").is_empty());
}

#[test]
fn escapes_stand_for_bytes_and_bytes_for_text() {
    assert_eq!(decode("%41%7a"), "Az");
    assert_eq!(decode("100%"), "100%");
    assert_eq!(decode("%%41"), "%A");
    assert_eq!(decode("%4"), "%4");
    assert_eq!(decode("%C3%A9"), "\u{e9}");
    assert_eq!(decode("caf\u{e9}.service"), "caf\u{e9}.service");
    assert_eq!(decode("%E2%82%AC+%f0%9f%98%80"), "\u{20ac} \u{1f600}");
    assert_eq!(decode("%E9"), "\u{e9}", "no part of a character");
    assert_eq!(decode("%ff%41"), "\u{ff}A");
    assert_eq!(decode("%C3x"), "\u{c3}x", "cut short");
    assert_eq!(decode("%ed%a0%80"), "\u{ed}\u{a0}\u{80}", "a surrogate");
    assert_eq!(decode("%C0%80"), "\u{c0}\u{80}", "overlong");
    assert_eq!(decode("%+f"), "% f");
}

#[test]
fn selectors_are_spelled_with_their_kind() {
    assert_eq!(parse_selector("unit:a:b"), Some(Selector::Unit("a:b".into())));
    assert_eq!(parse_selector("cgroup:a/b"), Some(Selector::Cgroup("a/b".into())));
    assert_eq!(parse_selector("uid:1000"), Some(Selector::User(1000)));
    for bad in ["", "unit", "unit:", "cgroup:", "uid:", "uid:x", "uid:4294967296", "user:1"] {
        assert_eq!(parse_selector(bad), None, "{bad:?}");
    }
}

#[test]
fn a_rule_is_cut_at_its_last_equals_sign() {
    assert_eq!(
        parse_rule("unit:a=b.service=tor"),
        Ok(Rule { selector: Selector::Unit("a=b.service".into()), path: Path::Tor })
    );
    assert_eq!(parse_rule("unit:a"), Err(Malformed::Rule("unit:a".into())));
    assert_eq!(parse_rule("a=tor"), Err(Malformed::Selector("a".into())));
    assert_eq!(parse_rule("uid:1=x"), Err(Malformed::Path("x".into())));
}

#[test]
fn complaints_quote_what_did_not_read() {
    let (_, _, bad) = policy_from_query("default=a%22b&rule=zz&rule=q=tor", host());
    assert_eq!(
        bad,
        vec![
            "unknown path \"a\\\"b\"".to_owned(),
            "rule \"zz\" is not <selector>=<path>".to_owned(),
            "unknown selector \"q\"".to_owned(),
        ]
    );
    assert_eq!(Malformed::Path("x".into()).explain_shown("<x>"), "unknown path <x>");
    let (_, _, kept) = policy_parts("default=a%22b", host());
    assert_eq!(kept, vec![Malformed::Path("a\"b".into())]);
}

#[test]
fn the_last_default_counts_and_detected_administrators_do_not() {
    let mut h = host();
    h.admin_peers.push("192.0.2.1".into());
    h.tunnel_endpoints.push("192.0.2.2".into());
    let (p, h, bad) =
        policy_from_query("default=tor&default=vpn:wg0&admin=&endpoint=192.0.2.3&what=ever", h);
    assert!(bad.is_empty());
    assert_eq!(p.default_path, Path::Vpn { interface: "wg0".into() });
    assert!(h.admin_peers.is_empty());
    assert_eq!(h.tunnel_endpoints, vec!["192.0.2.2".to_owned(), "192.0.2.3".to_owned()]);
}

#[test]
fn the_host_document_is_exact() {
    let sessions = [AdminSession {
        peer: "198.51.100.7".into(),
        port: 22,
        holder: "sshd".into(),
        likely: true,
        evidence: "because".into(),
    }];
    let mut h = host();
    h.tor_uid = None;
    assert_eq!(
        host_json(&h, &sessions, &[]),
        "{\"interfaces\":[\"wg0\"],\"cgroups\":[\"system.slice/nginx.service\"],\"active\":[],\
         \"torTransPort\":9040,\"torDnsPort\":9053,\"torUid\":null,\"sessions\":[{\
         \"peer\":\"198.51.100.7\",\"port\":22,\"holder\":\"sshd\",\"likely\":true,\
         \"evidence\":\"because\"}]}"
    );
}

#[test]
fn the_plan_document_is_exact() {
    let plan = Plan {
        nft: "table {\n}\n".into(),
        ip: vec!["ip a".into()],
        torrc: vec![],
        marks: vec![("vpn:wg0".into(), 0x7401)],
        revert: vec!["undo".into()],
        notes: vec![],
    };
    assert_eq!(
        plan_document(&plan, &[], &["bad".to_owned()], "do it"),
        "{\"nft\":\"table {\\n}\\n\",\"ip\":[\"ip a\"],\"torrc\":[],\"notes\":[],\
         \"refusals\":[],\"malformed\":[\"bad\"],\"marks\":[{\"path\":\"vpn:wg0\",\
         \"mark\":\"0x7401\"}],\"applyable\":false,\"revert\":[\"undo\"],\"command\":\"do it\"}"
    );
}

#[test]
fn the_command_is_laid_out_one_option_to_a_line() {
    assert_eq!(
        apply_command("rule=uid:1=tor&default=direct&admin=192.0.2.1&endpoint=192.0.2.2"),
        "sudo tl-plan \\\n    --default direct \\\n    --admin 192.0.2.1 \\\n    \
         --endpoint 192.0.2.2 \\\n    --rule 'uid:1=tor' \\\n    --apply --deadman 120"
    );
}

#[test]
fn both_documents_escape_alike() {
    for s in ["a\"b", "\u{202e}", "\u{1}", "plain"] {
        assert_eq!(esc(s), throughline::json::esc(s));
    }
    assert_eq!(esc("\u{7f}\t"), "\\u007f\\t");
}

#[test]
fn a_value_is_one_word_for_the_shell() {
    assert_eq!(
        apply_command("rule=unit:it%27s.service=tor&admin=a%3B+reboot&default="),
        "sudo tl-plan \\\n    --admin 'a; reboot' \\\n    --default '' \\\n    \
         --rule 'unit:it'\\''s.service=tor' \\\n    --apply --deadman 120"
    );
}
