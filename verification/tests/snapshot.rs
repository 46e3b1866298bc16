//! Flows, their direction and the document made of them.

use throughline::addr::IpAddr;
use throughline::json::esc;
use throughline::ports::EphemeralPorts;
use throughline::proc_net::{ByteOrder, Proto, Socket, State};
use throughline::procs::{Holder, Owner, ScannedProcess};
use throughline::services::ServiceNames;
use throughline::snapshot::{
    by_kind, collect_in, local_services, to_json, Direction, Flow, Listeners, NetTables,
};
use throughline::visibility::{Sight, Visibility};

fn seeing() -> Visibility {
    Visibility {
        sight: Sight::Full,
        evidence: "test fixture".to_owned(),
        remedy: None,
        android: false,
    }
}

const EP: EphemeralPorts = EphemeralPorts {
    low: 32768,
    high: 60999,
};

fn sock(remote: [u8; 4], port: u16, state: State) -> Socket {
    Socket {
        proto: Proto::Tcp,
        local_addr: IpAddr::V4(10, 0, 0, 1),
        local_port: 1234,
        remote_addr: IpAddr::V4(remote[0], remote[1], remote[2], remote[3]),
        remote_port: port,
        state,
        uid: 0,
        inode: 1,
    }
}

fn at(local: &str, lport: u16, remote: &str, state: State) -> Flow {
    flow(Socket {
        proto: Proto::Tcp,
        local_addr: IpAddr::parse(local).unwrap(),
        local_port: lport,
        remote_addr: IpAddr::parse(remote).unwrap(),
        remote_port: if state == State::Listen { 0 } else { 40000 },
        state,
        uid: 0,
        inode: 1,
    })
}

fn flow(s: Socket) -> Flow {
    Flow {
        socket: s,
        holder: None,
        owner: Owner::Unowned,
    }
}

#[test]
fn loopback_is_classified_not_counted_as_leaving() {
    assert!(!flow(sock([127, 0, 0, 1], 9050, State::Established)).leaves_host());
    assert!(flow(sock([1, 1, 1, 1], 443, State::Established)).leaves_host());
}

#[test]
fn a_listener_has_no_peer_so_it_does_not_leave() {
    assert!(!flow(sock([0, 0, 0, 0], 0, State::Listen)).leaves_host());
}

#[test]
fn json_escapes_a_hostile_process_name() {
    let f = Flow {
        socket: sock([1, 1, 1, 1], 443, State::Established),
        holder: Some(Holder {
            pid: 1,
            comm: "evil\"name\\with\nnewline".to_owned(),
            exe: None,
            owner: Owner::Process,
        }),
        owner: Owner::Process,
    };
    let j = to_json(&[f], &ServiceNames::default(), EP, &seeing());
    assert!(j.contains(r#"\"name\\with\nnewline"#), "{j}");
    assert_eq!(j.matches("\"actor\"").count(), 1);
}

#[test]
fn a_connection_to_a_port_we_listen_on_is_inbound_not_outbound() {
    let flows = vec![
        at("0.0.0.0", 443, "0.0.0.0", State::Listen),
        at("203.0.113.7", 443, "198.51.100.24", State::Established),
    ];
    let l = Listeners::from_flows(&flows, EP);
    assert_eq!(flows[1].direction(&l), Direction::Inbound);
    assert!(flows[1].leaves_host(), "peer really is off-box");
}

#[test]
fn a_connection_we_dialled_is_outbound() {
    let flows = vec![
        at("0.0.0.0", 443, "0.0.0.0", State::Listen),
        at("203.0.113.7", 55372, "1.1.1.1", State::Established),
    ];
    let l = Listeners::from_flows(&flows, EP);
    assert_eq!(flows[1].direction(&l), Direction::Outbound);
}

#[test]
fn syn_recv_is_inbound_even_with_no_matching_listener() {
    let f = at("203.0.113.7", 22, "198.51.100.99", State::SynRecv);
    assert_eq!(f.direction(&Listeners::default()), Direction::Inbound);
}

#[test]
fn a_loopback_only_listener_does_not_make_an_outbound_flow_look_inbound() {
    let flows = vec![
        at("127.0.0.1", 8080, "0.0.0.0", State::Listen),
        at("203.0.113.7", 8080, "1.1.1.1", State::Established),
    ];
    let l = Listeners::from_flows(&flows, EP);
    assert_eq!(flows[1].direction(&l), Direction::Outbound);
    assert!(l.accepts(IpAddr::parse("127.0.0.1").unwrap(), 8080));
}

#[test]
fn a_dual_stack_listener_matches_a_v4_mapped_connection() {
    let flows = vec![
        at("::", 443, "::", State::Listen),
        at(
            "::ffff:203.0.113.7",
            443,
            "::ffff:198.51.100.24",
            State::Established,
        ),
    ];
    let l = Listeners::from_flows(&flows, EP);
    assert_eq!(flows[1].direction(&l), Direction::Inbound);
}

#[test]
fn a_local_proxy_hop_is_loopback_not_outbound() {
    let f = flow(sock([127, 0, 0, 1], 9050, State::Established));
    assert_eq!(f.direction(&Listeners::default()), Direction::Loopback);
}

#[test]
fn a_localhost_client_of_a_local_server_is_loopback_not_inbound() {
    let flows = vec![
        at("0.0.0.0", 6379, "0.0.0.0", State::Listen),
        at("127.0.0.1", 6379, "127.0.0.1", State::Established),
    ];
    let l = Listeners::from_flows(&flows, EP);
    assert_eq!(flows[1].direction(&l), Direction::Loopback);
    assert!(!flows[1].leaves_host());
}

#[test]
fn a_listener_and_an_idle_socket_are_neither_in_nor_out() {
    let listen = at("0.0.0.0", 443, "0.0.0.0", State::Listen);
    assert_eq!(
        listen.direction(&Listeners::default()),
        Direction::Listening
    );
    let idle = flow(sock([0, 0, 0, 0], 0, State::Close));
    assert_eq!(idle.direction(&Listeners::default()), Direction::Idle);
}

#[test]
fn json_carries_the_direction_and_leaves_means_outbound_only() {
    let flows = vec![
        at("0.0.0.0", 443, "0.0.0.0", State::Listen),
        at("203.0.113.7", 443, "198.51.100.24", State::Established),
        at("203.0.113.7", 55372, "1.1.1.1", State::Established),
    ];
    let j = to_json(&flows, &ServiceNames::default(), EP, &seeing());
    assert_eq!(j.matches("\"dir\":\"inbound\"").count(), 1, "{j}");
    assert_eq!(j.matches("\"dir\":\"outbound\"").count(), 1, "{j}");
    assert_eq!(j.matches("\"dir\":\"listening\"").count(), 1, "{j}");
    assert_eq!(j.matches("\"leaves\":true").count(), 1, "{j}");
}

fn held(mut f: Flow, comm: &str, owner: Owner) -> Flow {
    f.holder = Some(Holder {
        pid: 7,
        comm: comm.to_owned(),
        exe: None,
        owner: owner.clone(),
    });
    f.owner = owner;
    f
}

#[test]
fn a_local_service_is_detected_from_the_listener_not_a_port_list() {
    let flows = vec![
        held(
            at("127.0.0.1", 47821, "0.0.0.0", State::Listen),
            "dnscrypt-proxy",
            Owner::Service("dnscrypt-proxy".to_owned()),
        ),
        at("127.0.0.1", 55000, "127.0.0.1", State::Established),
    ];
    let svc = local_services(&flows, &ServiceNames::default(), EP);
    assert_eq!(svc.len(), 1);
    assert_eq!(svc[0].port, 47821);
    assert_eq!(svc[0].actor.as_deref(), Some("dnscrypt-proxy"));
    assert_eq!(svc[0].service, None, "no /etc/services entry, still listed");
}

#[test]
fn a_forwarder_is_told_apart_from_a_terminus_by_its_own_egress() {
    let proxy = held(
        at("127.0.0.1", 9050, "0.0.0.0", State::Listen),
        "tor",
        Owner::Service("tor".to_owned()),
    );
    let proxy_out = held(
        at("10.0.0.1", 51000, "198.51.100.9", State::Established),
        "tor",
        Owner::Service("tor".to_owned()),
    );
    let db = held(
        at("127.0.0.1", 5432, "0.0.0.0", State::Listen),
        "postgres",
        Owner::Service("postgres".to_owned()),
    );
    let svc = local_services(&[proxy, proxy_out, db], &ServiceNames::default(), EP);
    let by_port = |p: u16| svc.iter().find(|s| s.port == p).unwrap();
    assert!(by_port(9050).forwards, "tor's traffic continues outward");
    assert!(!by_port(5432).forwards, "postgres is where traffic stops");
}

#[test]
fn the_system_services_file_supplies_a_label_when_no_process_is_visible() {
    let names = ServiceNames::parse("ssh 22/tcp\n");
    let svc = local_services(&[at("0.0.0.0", 22, "0.0.0.0", State::Listen)], &names, EP);
    assert_eq!(svc[0].actor, None);
    assert_eq!(svc[0].service.as_deref(), Some("ssh"));
}

#[test]
fn clients_are_counted_from_the_loopback_connections_into_the_port() {
    let flows = vec![
        held(
            at("127.0.0.1", 9050, "0.0.0.0", State::Listen),
            "tor",
            Owner::Service("tor".to_owned()),
        ),
        at("127.0.0.1", 41000, "127.0.0.1", State::Established),
        at("127.0.0.1", 41001, "127.0.0.1", State::Established),
    ];
    let mut flows = flows;
    flows[1].socket.remote_port = 9050;
    flows[2].socket.remote_port = 9050;
    let svc = local_services(&flows, &ServiceNames::default(), EP);
    assert_eq!(svc[0].clients, 2);
}

#[test]
fn a_udp_service_is_found_even_though_udp_never_listens() {
    let mut resolver = at("127.0.0.53", 53, "0.0.0.0", State::Close);
    resolver.socket.proto = Proto::Udp;
    resolver.socket.remote_port = 0;
    let mut client = at("127.0.0.1", 41000, "127.0.0.53", State::Established);
    client.socket.proto = Proto::Udp;
    client.socket.remote_port = 53;
    let names = ServiceNames::parse("domain 53/udp\n");
    let svc = local_services(&[resolver, client], &names, EP);
    let dns = svc
        .iter()
        .find(|s| s.port == 53)
        .expect("resolver detected");
    assert_eq!(dns.service.as_deref(), Some("domain"));
    assert_eq!(dns.clients, 1);
}

#[test]
fn a_udp_client_port_is_never_treated_as_a_listener_for_direction() {
    let mut ephemeral = at("10.0.0.1", 41000, "0.0.0.0", State::Close);
    ephemeral.socket.proto = Proto::Udp;
    ephemeral.socket.remote_port = 0;
    let mut reply = at("10.0.0.1", 41000, "198.51.100.9", State::Established);
    reply.socket.proto = Proto::Udp;
    let flows = vec![ephemeral, reply];
    let l = Listeners::from_flows(&flows, EP);
    assert_eq!(
        flows[1].direction(&l),
        Direction::Outbound,
        "a UDP reply is not somebody connecting in"
    );
    let svc = local_services(&flows, &ServiceNames::default(), EP);
    assert!(
        svc.iter().all(|s| s.port != 41000),
        "client port listed as a service"
    );
    assert!(!flows[0].accepts_connections(EP));
}

#[test]
fn json_carries_the_detected_services() {
    let names = ServiceNames::parse("ssh 22/tcp\n");
    let flows = vec![held(
        at("0.0.0.0", 22, "0.0.0.0", State::Listen),
        "sshd",
        Owner::Service("ssh".to_owned()),
    )];
    let j = to_json(&flows, &names, EP, &seeing());
    assert!(j.contains(r#""service":"ssh""#), "{j}");
    assert!(j.contains(r#""actor":"sshd (ssh)""#), "{j}");
    assert!(j.contains(r#""forwards":false"#), "{j}");
}

#[test]
fn a_name_cannot_rewrite_the_text_around_it() {
    let f = Flow {
        socket: sock([1, 1, 1, 1], 443, State::Established),
        holder: Some(Holder {
            pid: 1,
            comm: "gpj.\u{202e}exe-erawlam".to_owned(),
            exe: None,
            owner: Owner::Process,
        }),
        owner: Owner::Process,
    };
    let j = to_json(&[f], &ServiceNames::default(), EP, &seeing());
    assert!(!j.contains('\u{202e}'), "raw override reached the UI");
    assert!(j.contains("\\u202e"), "{j}");
    assert_eq!(esc("a\u{200b}b"), "a\\u200bb");
    assert_eq!(esc("a\u{feff}b"), "a\\ufeffb");
    assert_eq!(esc("plain text"), "plain text", "ordinary names untouched");
}

#[test]
fn an_orphaned_server_socket_is_still_inbound_after_its_listener_stops() {
    let mut f = at("10.0.0.1", 443, "198.51.100.9", State::TimeWait);
    f.socket.inode = 0;
    assert_eq!(
        f.direction(&Listeners::from_flows(&[], EP)),
        Direction::Inbound
    );
}

#[test]
fn an_orphan_on_an_ephemeral_port_is_still_outbound() {
    let mut f = at("10.0.0.1", 41000, "198.51.100.9", State::TimeWait);
    f.socket.inode = 0;
    assert!(EP.is_ephemeral(41000));
    assert_eq!(
        f.direction(&Listeners::from_flows(&[], EP)),
        Direction::Outbound
    );
}

#[test]
fn a_live_outbound_connection_is_never_caught_by_the_orphan_rule() {
    let mut f = at("10.0.0.1", 443, "198.51.100.9", State::Established);
    f.socket.inode = 4242;
    assert_eq!(
        f.direction(&Listeners::from_flows(&[], EP)),
        Direction::Outbound
    );
}

#[test]
fn a_udp_service_counts_as_accepting_and_a_udp_client_does_not() {
    let mut resolver = at("127.0.0.53", 53, "0.0.0.0", State::Close);
    resolver.socket.proto = Proto::Udp;
    resolver.socket.remote_port = 0;
    let mut client = at("10.0.0.1", 45123, "0.0.0.0", State::Close);
    client.socket.proto = Proto::Udp;
    client.socket.remote_port = 0;
    assert!(resolver.accepts_connections(EP), "a resolver is accepting");
    assert!(!client.accepts_connections(EP), "a query in flight is not");
    assert!(at("0.0.0.0", 443, "0.0.0.0", State::Listen).accepts_connections(EP));
    assert!(!at("10.0.0.1", 443, "198.51.100.9", State::Established).accepts_connections(EP));
}

#[test]
fn an_empty_snapshot_is_still_valid_json() {
    assert_eq!(
        to_json(&[], &ServiceNames::default(), EP, &seeing()),
        "{\"visibility\":{\"sight\":\"full\",\"trustworthy\":true,\
         \"headline\":\"reading this machine\",\"evidence\":\"test fixture\",\
         \"remedy\":null,\"android\":false},\"flows\":[],\"services\":[]}"
    );
}

#[test]
fn an_empty_snapshot_from_a_blind_process_says_so_in_the_document() {
    let blind = Visibility {
        sight: Sight::TablesWithheld,
        evidence: "3 interface(s) carried packets".to_owned(),
        remedy: Some("run it as root".to_owned()),
        android: true,
    };
    let j = to_json(&[], &ServiceNames::default(), EP, &blind);
    assert!(j.contains("\"sight\":\"tables-withheld\""), "{j}");
    assert!(j.contains("\"trustworthy\":false"), "{j}");
    assert!(j.contains("CANNOT SEE"), "{j}");
    assert!(j.contains("\"android\":true"), "{j}");
    assert!(j.contains("\"flows\":[]"));
    let quiet = to_json(&[], &ServiceNames::default(), EP, &seeing());
    assert!(quiet.contains("\"trustworthy\":true"));
    assert_ne!(quiet, j, "a blind reading must not render as a quiet one");
}

fn tables() -> NetTables {
    NetTables {
        tcp: Some(
            "  sl  local_address rem_address   st\n   \
             0: 00000000:0016 00000000:0000 0A 0 0 0 0 0 10\n   \
             1: 077100CB:0016 2A6433C6:D8E6 01 0 0 0 0 0 20\n"
                .to_owned(),
        ),
        tcp6: None,
        udp: Some("   0: 3500007F:0035 00000000:0000 07 0 0 0 101 0 30\n".to_owned()),
        udp6: None,
    }
}

#[test]
fn a_snapshot_joins_rows_and_processes() {
    let scan = vec![
        ScannedProcess {
            name: "900".to_owned(),
            links: vec!["socket:[10]".to_owned(), "socket:[20]".to_owned()],
            comm: Some("sshd\n".to_owned()),
            exe: None,
            cgroup: Some("0::/system.slice/ssh.service\n".to_owned()),
            status: None,
        },
        ScannedProcess {
            name: "self".to_owned(),
            links: vec!["socket:[30]".to_owned()],
            comm: None,
            exe: None,
            cgroup: None,
            status: None,
        },
    ];
    let flows = collect_in(ByteOrder::Little, &scan, &tables());
    assert_eq!(flows.len(), 3);
    assert_eq!(flows[0].actor(), "sshd (ssh)");
    assert_eq!(flows[1].owner, Owner::Service("ssh".to_owned()));
    assert_eq!(flows[2].holder, None, "an entry that is no pid holds nothing");
    assert_eq!(flows[2].owner, Owner::Unowned);
    assert_eq!(by_kind(&flows), vec![("service", 2), ("unowned", 1)]);
    let j = to_json(&flows, &ServiceNames::parse("domain 53/udp\n"), EP, &seeing());
    assert!(
        j.contains(
            "{\"proto\":\"tcp\",\"state\":\"ESTAB\",\"local\":\"203.0.113.7\",\"lport\":22,\
             \"remote\":\"198.51.100.42\",\"rport\":55526,\"inode\":20,\"uid\":0,\
             \"actor\":\"sshd (ssh)\",\"kind\":\"service\",\"pid\":900,\"exe\":\"\",\
             \"leaves\":false,\"listening\":false,\"dir\":\"inbound\"}"
        ),
        "{j}"
    );
    assert!(j.contains("\"service\":\"domain\""), "{j}");
}

#[test]
fn nothing_readable_is_nothing_shown() {
    let none = NetTables { tcp: None, tcp6: None, udp: None, udp6: None };
    assert!(collect_in(ByteOrder::Little, &vec![], &none).is_empty());
    assert!(by_kind(&[]).is_empty());
}

#[test]
fn listeners_are_counted_by_port() {
    let flows = vec![
        at("0.0.0.0", 443, "0.0.0.0", State::Listen),
        at("::", 443, "::", State::Listen),
        at("127.0.0.1", 8080, "0.0.0.0", State::Listen),
    ];
    let l = Listeners::from_flows(&flows, EP);
    assert!(!l.is_empty());
    assert!(Listeners::default().is_empty());
    assert!(l.accepts(IpAddr::V4(10, 0, 0, 1), 443));
    assert!(!l.accepts(IpAddr::V4(10, 0, 0, 1), 8080));
    assert!(!l.accepts(IpAddr::V4(10, 0, 0, 1), 80));
}

#[test]
fn directions_have_tags() {
    assert_eq!(Direction::Inbound.tag(), "inbound");
    assert_eq!(Direction::Outbound.tag(), "outbound");
    assert_eq!(Direction::Loopback.tag(), "loopback");
    assert_eq!(Direction::Listening.tag(), "listening");
    assert_eq!(Direction::Idle.tag(), "idle");
}
