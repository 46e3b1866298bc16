//! Facts about a host that a policy depends on.

use throughline::addr::IpAddr;
use throughline::policy::Host;
use throughline::ports::EphemeralPorts;
use throughline::proc_net::{Proto, Socket, State};
use throughline::probe::{
    active_cgroups, admin_candidates, cgroups, effective_uid, holders_of_inode, host, interfaces,
    normalise, rp_filter, tor_ports, uid_min, CgroupDir, HostFacts,
};
use throughline::procs::{Holder, Owner, ScannedProcess};
use throughline::snapshot::Flow;

const EP: EphemeralPorts = EphemeralPorts { low: 32768, high: 60999 };

const TORRC: &str = "# TransPort 1111\n\
     SocksPort 9050\n\
     TransPort 127.0.0.1:9040 IsolateDestAddr\n\
     DNSPort 9053\n";

fn status_of(uid: u32) -> String {
    format!("Name:\tsshd\nUmask:\t0022\nUid:\t0\t{uid}\t0\t0\nGid:\t0\t0\t0\t0\n")
}

fn process(pid: u32, inode: u64, comm: &str, uid: u32, cgroup: &str) -> ScannedProcess {
    ScannedProcess {
        name: pid.to_string(),
        links: vec!["/dev/null".to_owned(), format!("socket:[{inode}]")],
        comm: Some(format!("{comm}\n")),
        exe: None,
        cgroup: Some(format!("0::/{cgroup}\n")),
        status: Some(status_of(uid)),
    }
}

fn flow(
    local: &str,
    local_port: u16,
    remote: &str,
    state: State,
    inode: u64,
    holder: Option<(u32, &str)>,
) -> Flow {
    Flow {
        socket: Socket {
            proto: Proto::Tcp,
            local_addr: IpAddr::parse(local).unwrap(),
            local_port,
            remote_addr: IpAddr::parse(remote).unwrap(),
            remote_port: if state == State::Listen { 0 } else { 40000 },
            state,
            uid: 0,
            inode,
        },
        holder: holder.map(|(pid, comm)| Holder {
            pid,
            comm: comm.to_owned(),
            exe: None,
            owner: Owner::Process,
        }),
        owner: Owner::Process,
    }
}

/// A machine with an ssh daemon, a session that has logged in, one that has
/// not, somebody knocking, and Tor talking to a relay.
fn machine() -> (Vec<ScannedProcess>, Vec<Flow>) {
    let scan = vec![
        process(900, 10, "sshd", 0, "system.slice/ssh.service"),
        process(1200, 20, "sshd", 0, "system.slice/ssh.service"),
        process(1201, 20, "sshd", 1000, "user.slice/user-1000.slice/session-3.scope"),
        process(1300, 30, "sshd", 0, "system.slice/ssh.service"),
        process(700, 40, "tor", 107, "system.slice/tor.service"),
    ];
    let flows = vec![
        flow("0.0.0.0", 22, "0.0.0.0", State::Listen, 10, Some((900, "sshd"))),
        flow("203.0.113.7", 22, "198.51.100.66", State::SynRecv, 0, None),
        flow("203.0.113.7", 22, "198.51.100.42", State::Established, 30, Some((1300, "sshd"))),
        flow("203.0.113.7", 22, "::ffff:198.51.100.7", State::Established, 20, Some((1200, "sshd"))),
        flow("203.0.113.7", 22, "198.51.100.7", State::Established, 20, Some((1200, "sshd"))),
        flow("203.0.113.7", 51000, "192.0.2.9", State::Established, 40, Some((700, "tor"))),
    ];
    (scan, flows)
}

fn facts(scan: Vec<ScannedProcess>) -> HostFacts {
    HostFacts {
        scan,
        ports: EP,
        login_defs: None,
        torrc: Some(TORRC.to_owned()),
        interfaces: vec!["wg0".to_owned(), "eth0".to_owned(), "lo".to_owned()],
        rp_filter: vec![("wg0".to_owned(), "2\n".to_owned()), ("all".to_owned(), "1\n".to_owned())],
        system_slice: vec![CgroupDir {
            name: "nginx.service".to_owned(),
            inner: vec![],
        }],
        user_slice: vec![CgroupDir {
            name: "user-1000.slice".to_owned(),
            inner: vec!["session-3.scope".to_owned()],
        }],
    }
}

#[test]
fn tor_ports_are_read_in_every_spelling_torrc_allows() {
    assert_eq!(tor_ports(Some(TORRC)), (Some(9040), Some(9053)));
}

#[test]
fn an_unset_port_is_none_and_never_a_default() {
    assert_eq!(tor_ports(Some("SocksPort 9050\n# DNSPort 9053\n")), (None, None));
    assert_eq!(tor_ports(None), (None, None));
}

#[test]
fn a_key_that_merely_starts_the_same_is_not_matched() {
    assert_eq!(tor_ports(Some("TransPortFoo 1234\nDNSPortWhatever 5678\n")), (None, None));
}

#[test]
fn a_v4_mapped_peer_is_written_the_way_nftables_will_see_it() {
    assert_eq!(normalise("::ffff:198.51.100.7"), "198.51.100.7");
    assert_eq!(normalise("198.51.100.7"), "198.51.100.7");
    assert_eq!(normalise("2001:db8::1"), "2001:db8::1");
    assert_eq!(normalise("::ffff:0:1:2"), "::ffff:0:1:2", "not a mapped address");
    assert_eq!(normalise("::ffff:host"), "::ffff:host");
}

#[test]
fn a_daemons_uid_comes_from_the_process_not_from_a_socket_it_inherited() {
    assert_eq!(effective_uid(Some(&status_of(107))), Some(107), "the second number");
    assert_eq!(effective_uid(None), None, "pid 0 has no status");
    assert_eq!(effective_uid(Some("Name:\tx\n")), None);
    assert_eq!(effective_uid(Some("Uid:\t5\n")), None);
    let (scan, flows) = machine();
    let h = host(&facts(scan), &flows);
    assert_eq!(h.tor_uid, Some(107), "the socket itself is root's");
}

#[test]
fn uid_min_is_read_from_the_host_not_assumed() {
    assert_eq!(uid_min(Some("# UID_MIN 500\nUID_MAX 60000\nUID_MIN 2000\n")), 2000);
    assert_eq!(uid_min(None), 1000, "documented fallback");
}

#[test]
fn every_admin_candidate_carries_the_evidence_for_its_verdict() {
    let (scan, flows) = machine();
    let found = admin_candidates(&flows, &scan, EP, 1000);
    assert_eq!(found.len(), 2);
    for c in &found {
        assert!(!c.evidence.is_empty(), "{c:?}");
        assert!(!c.peer.is_empty());
        if c.likely {
            assert!(c.evidence.contains("after authentication"), "{c:?}");
        } else {
            assert!(
                c.evidence.contains("unauthenticated") || c.evidence.contains("not readable"),
                "{c:?}"
            );
        }
    }
    assert_eq!(found[0].peer, "198.51.100.7", "the likely one comes first");
    assert!(found[0].likely);
    assert_eq!(found[0].port, 22);
    assert_eq!(found[0].holder, "sshd");
    assert_eq!(
        found[0].evidence,
        "one of the 2 processes holding this socket runs as uid 1000, a login account -- sshd \
         drops to the user's uid only after authentication"
    );
    assert_eq!(found[1].peer, "198.51.100.42");
    assert_eq!(
        found[1].evidence,
        "every process holding this socket still runs as uid 0 (1 of them). A connection reaches \
         ESTABLISHED before any password is offered, so this may be an unauthenticated attempt \
         rather than a session"
    );
}

#[test]
fn a_session_whose_holder_cannot_be_read_is_not_called_likely() {
    let (_, flows) = machine();
    let found = admin_candidates(&flows, &vec![], EP, 1000);
    assert_eq!(found.len(), 2);
    assert!(found.iter().all(|c| !c.likely));
    assert!(found.iter().all(|c| c.evidence
        == "the holding process is not readable, so nothing can be said about whether this \
            connection is authenticated"));
    assert_eq!(found[0].peer, "198.51.100.42", "by address among equals");
}

#[test]
fn a_scan_on_the_ssh_port_cannot_get_itself_excluded() {
    let (scan, flows) = machine();
    let found = admin_candidates(&flows, &scan, EP, 1000);
    assert!(found.iter().all(|c| c.peer != "198.51.100.66"), "{found:?}");
    let h = host(&facts(scan), &flows);
    assert_eq!(h.admin_peers, vec!["198.51.100.7".to_owned()]);
}

#[test]
fn a_port_nobody_serves_ssh_on_gives_no_candidate() {
    let (scan, mut flows) = machine();
    flows[0].holder = None;
    assert!(admin_candidates(&flows, &scan, EP, 1000).is_empty());
}

#[test]
fn reverse_path_filtering_is_read_for_every_interface_including_all() {
    let rp = rp_filter(&vec![
        ("wg0".to_owned(), "2\n".to_owned()),
        ("lo".to_owned(), "0\n".to_owned()),
        ("all".to_owned(), "1\n".to_owned()),
        ("broken".to_owned(), "many".to_owned()),
    ]);
    assert!(!rp.is_empty(), "no interfaces read");
    assert!(rp.iter().any(|(n, _)| n == "all"), "{rp:?}");
    assert!(rp.iter().any(|(n, _)| n == "lo"), "{rp:?}");
    assert!(rp.iter().all(|(_, v)| *v <= 2), "{rp:?}");
    assert_eq!(
        rp,
        vec![("all".to_owned(), 1), ("lo".to_owned(), 0), ("wg0".to_owned(), 2)]
    );
}

#[test]
fn the_live_host_has_interfaces_and_cgroups() {
    let ifs = interfaces(vec!["wg0".to_owned(), "lo".to_owned(), "eth0".to_owned()]);
    assert!(ifs.iter().any(|i| i == "lo"), "{ifs:?}");
    assert_eq!(ifs, vec!["eth0".to_owned(), "lo".to_owned(), "wg0".to_owned()]);
    let f = facts(vec![]);
    let cg = cgroups(&f.system_slice, &f.user_slice);
    assert!(cg.iter().any(|c| c.starts_with("system.slice/")), "{}", cg.len());
    assert_eq!(
        cg,
        vec![
            "system.slice/nginx.service".to_owned(),
            "user.slice/user-1000.slice".to_owned(),
            "user.slice/user-1000.slice/session-3.scope".to_owned(),
        ]
    );
}

#[test]
fn every_holder_of_a_socket_is_found() {
    let (scan, _) = machine();
    assert_eq!(holders_of_inode(&scan, 20), vec![1200, 1201]);
    assert_eq!(holders_of_inode(&scan, 2), Vec::<u32>::new());
    assert_eq!(holders_of_inode(&scan, 0), Vec::<u32>::new());
}

#[test]
fn what_is_talking_is_named_once_and_in_order() {
    let (mut scan, mut flows) = machine();
    scan.push(process(50, 60, "apt", 0, "system.slice/apt.service"));
    flows.push(flow("203.0.113.7", 51001, "192.0.2.10", State::Established, 60, Some((50, "apt"))));
    flows.push(flow("203.0.113.7", 51002, "192.0.2.11", State::Established, 40, Some((700, "tor"))));
    assert_eq!(
        active_cgroups(&flows, &scan, EP),
        vec!["system.slice/apt.service".to_owned(), "system.slice/tor.service".to_owned()]
    );
}

#[test]
fn a_host_is_put_together_from_what_was_read() {
    let (scan, flows) = machine();
    let h: Host = host(&facts(scan), &flows);
    assert_eq!(h.interfaces, vec!["eth0".to_owned(), "lo".to_owned(), "wg0".to_owned()]);
    assert_eq!(h.tor_trans_port, Some(9040));
    assert_eq!(h.tor_dns_port, Some(9053));
    assert_eq!(h.rp_filter, vec![("all".to_owned(), 1), ("wg0".to_owned(), 2)]);
    assert!(h.tunnel_endpoints.is_empty());
    assert_eq!(h.cgroups.len(), 3);
}

#[test]
fn a_session_is_excluded_by_the_address_it_came_from() {
    use_peer("::ffff:198.51.100.7", "198.51.100.7");
    use_peer("2001:db8::7", "2001:db8::7");
    use_peer("::ffff:0:1:2", "::ffff:0:1:2");
}

fn use_peer(remote: &str, written: &str) {
    let a = IpAddr::parse(remote).unwrap();
    let peer = normalise(&a.to_text());
    assert_eq!(peer, written);
    assert_eq!(IpAddr::parse(&peer), Some(a.flattened()));
}
