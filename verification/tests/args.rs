//! The command line of the planner.

use throughline::api::{apply_command, policy_from_query};
use throughline::args::{read_args, wants_bare, wants_help, Complaint, Request, Task};
use throughline::policy::{Host, Path, Rule, Selector};

fn words(line: &str) -> Vec<String> {
    line.split_whitespace().map(|w| w.to_owned()).collect()
}

fn read(line: &str) -> Request {
    match read_args(&words(line), Host::default()) {
        Ok(r) => r,
        Err(c) => panic!("{c:?}"),
    }
}

fn refused(line: &str) -> (String, String) {
    match read_args(&words(line), Host::default()) {
        Ok(_) => panic!("{line}"),
        Err(Complaint { what, subject }) => (what, subject),
    }
}

#[test]
fn nothing_asked_is_nothing_changed() {
    let r = read("");
    assert!(r.policy.rules.is_empty());
    assert_eq!(r.policy.default_path, Path::Direct);
    assert!(!r.show_ip && !r.force);
    assert_eq!(r.task, Task::Print);
    assert_eq!(r.deadman_secs, 120);
}

#[test]
fn every_argument_is_taken() {
    let r = read(
        "--bare --ip --force --default tor --rule uid:5=vpn:wg0 --admin 192.0.2.1 \
         --endpoint 192.0.2.2 --iface wg0 --cgroup a/b --tor-trans 1 --tor-dns 2 --tor-uid 3 \
         --rp-filter wg0=2 --apply --deadman 60",
    );
    assert!(r.show_ip && r.force);
    assert_eq!(r.policy.default_path, Path::Tor);
    assert_eq!(
        r.policy.rules,
        vec![Rule { selector: Selector::User(5), path: Path::Vpn { interface: "wg0".into() } }]
    );
    assert_eq!(r.host.admin_peers, vec!["192.0.2.1"]);
    assert_eq!(r.host.tunnel_endpoints, vec!["192.0.2.2"]);
    assert_eq!(r.host.interfaces, vec!["wg0"]);
    assert_eq!(r.host.cgroups, vec!["a/b"]);
    assert_eq!(r.host.tor_trans_port, Some(1));
    assert_eq!(r.host.tor_dns_port, Some(2));
    assert_eq!(r.host.tor_uid, Some(3));
    assert_eq!(r.host.rp_filter, vec![("wg0".to_owned(), 2)]);
    assert_eq!(r.task, Task::Apply);
    assert_eq!(r.deadman_secs, 60);
    assert_eq!(read("--status").task, Task::Status);
    assert_eq!(read("--confirm").task, Task::Confirm);
    assert_eq!(read("--revert").task, Task::Revert);
}

#[test]
fn what_is_wrong_is_named() {
    let c = |a: &str, b: &str| (a.to_owned(), b.to_owned());
    assert_eq!(refused("--default"), c("not a path", "--default"));
    assert_eq!(refused("--default nowhere"), c("not a path", "--default"));
    assert_eq!(refused("--rule"), c("missing value", "--rule"));
    assert_eq!(refused("--rule uid:1"), c("not <selector>=<path>", "uid:1"));
    assert_eq!(refused("--rule x=tor"), c("not <selector>=<path>", "x=tor"));
    assert_eq!(refused("--admin"), c("missing value", "--admin"));
    assert_eq!(refused("--rp-filter wg0"), c("not <iface>=<0|1|2>", "wg0"));
    assert_eq!(refused("--rp-filter wg0=256"), c("not <iface>=<0|1|2>", "wg0=256"));
    assert_eq!(refused("--deadman soon"), c("not a number of seconds", "soon"));
    assert_eq!(refused("--ip --what"), c("unknown argument", "--what"));
}

#[test]
fn a_port_that_is_no_number_is_no_port() {
    let mut base = Host::default();
    base.tor_trans_port = Some(9040);
    base.tor_uid = Some(7);
    base.admin_peers = vec!["192.0.2.9".into()];
    let r = match read_args(&words("--tor-trans many --tor-uid"), base) {
        Ok(r) => r,
        Err(c) => panic!("{c:?}"),
    };
    assert_eq!(r.host.tor_trans_port, None);
    assert_eq!(r.host.tor_uid, None);
    assert!(r.host.admin_peers.is_empty(), "nobody is an administrator until named");
}

#[test]
fn help_and_bare_are_seen_anywhere() {
    assert!(wants_help(&words("--ip -h")));
    assert!(wants_help(&words("--help")));
    assert!(!wants_help(&words("--ip")));
    assert!(wants_bare(&words("--ip --bare")));
    assert!(!wants_bare(&words("")));
}

#[test]
fn the_shown_command_asks_for_the_shown_policy() {
    let query = "rule=uid:1000=vpn:wg0&default=tor&admin=192.0.2.1&rule=unit:a.service=direct\
                 &endpoint=192.0.2.2";
    let (policy, host, bad) = policy_from_query(query, Host::default());
    assert!(bad.is_empty());
    let typed = apply_command(query).replace(" \\\n", " ").replace('\'', "");
    let args: Vec<String> = words(&typed)[2..].to_vec();
    let r = match read_args(&args, Host::default()) {
        Ok(r) => r,
        Err(c) => panic!("{c:?}"),
    };
    assert_eq!(r.policy.rules, policy.rules);
    assert_eq!(r.policy.default_path, policy.default_path);
    assert_eq!(r.host.admin_peers, host.admin_peers);
    assert_eq!(r.host.tunnel_endpoints, host.tunnel_endpoints);
    assert_eq!(r.task, Task::Apply);
    assert_eq!(r.deadman_secs, 120);
}
