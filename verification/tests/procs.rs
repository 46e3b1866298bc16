//! Who holds a socket.

use std::collections::HashMap;

use throughline::procs::{
    attribute, classify_cgroup, holders_by_inode, socket_inode, Holder, Owner, ScannedProcess,
};

#[test]
fn a_socket_link_yields_its_inode() {
    assert_eq!(socket_inode("socket:[439803925]"), Some(439_803_925));
    for not_a_socket in [
        "/dev/null",
        "pipe:[12345]",
        "anon_inode:[eventpoll]",
        "socket:[]",
        "socket:[abc]",
        "socket:12345",
    ] {
        assert_eq!(socket_inode(not_a_socket), None, "{not_a_socket}");
    }
}

#[test]
fn a_system_service_is_named_by_its_unit() {
    let o = classify_cgroup("0::/system.slice/nginx.service\n");
    assert_eq!(o, Owner::Service("nginx".to_owned()));
    assert_eq!(o.kind(), "service");
    assert_eq!(o.name(), Some("nginx"));
}

#[test]
fn a_container_is_not_mislabelled_as_a_service() {
    let o = classify_cgroup(
        "0::/system.slice/docker-3f1a2b9c8d7e6f5a4b3c2d1e0f9a8b7c6d5e4f3a2b1c0d9e8f7a6b5c4d3e2f1a.scope\n",
    );
    assert_eq!(o, Owner::Container("3f1a2b9c8d7e".to_owned()));
    assert_eq!(o.kind(), "container");
}

#[test]
fn a_desktop_app_is_distinguished_from_a_daemon() {
    let o = classify_cgroup(
        "0::/user.slice/user-1000.slice/user@1000.service/app.slice/app-firefox-1234.scope\n",
    );
    assert_eq!(o.kind(), "app");
    assert_eq!(o.name(), Some("app-firefox-1234"));
    assert!(matches!(o, Owner::UserApp { uid_hint: Some(1000), .. }));
}

#[test]
fn cgroup_v1_and_hybrid_hierarchies_still_classify() {
    let v1 = "11:name=systemd:/system.slice/tor.service\n\
              10:devices:/system.slice/tor.service\n";
    assert_eq!(classify_cgroup(v1), Owner::Service("tor".to_owned()));
}

#[test]
fn a_rootless_or_empty_cgroup_degrades_rather_than_lying() {
    for body in ["0::/\n", "", "garbage\n"] {
        let o = classify_cgroup(body);
        assert_eq!(o.kind(), "process", "body {body:?} -> {o:?}");
        assert_eq!(o.name(), None);
    }
}

#[test]
fn inode_zero_is_unowned_and_says_so() {
    let empty = HashMap::new();
    assert_eq!(attribute(0, &empty), Owner::Unowned);
    assert_eq!(attribute(0, &empty).kind(), "unowned");
}

#[test]
fn an_inode_with_no_visible_holder_is_unowned_not_dropped() {
    let empty = HashMap::new();
    assert_eq!(attribute(999_999, &empty), Owner::Unowned);
}

#[test]
fn a_known_inode_resolves_to_its_owner() {
    let mut m = HashMap::new();
    m.insert(
        42,
        Holder {
            pid: 7,
            comm: "tor".to_owned(),
            exe: Some("/usr/sbin/tor".to_owned()),
            owner: Owner::Service("tor".to_owned()),
        },
    );
    assert_eq!(attribute(42, &m), Owner::Service("tor".to_owned()));
    assert_eq!(m[&42].label(), "tor", "no redundant '(tor)' suffix");
}

#[test]
fn a_label_shows_the_unit_when_it_differs_from_the_process_name() {
    let h = Holder {
        pid: 9,
        comm: "python3".to_owned(),
        exe: None,
        owner: Owner::Service("site-metrics".to_owned()),
    };
    assert_eq!(h.label(), "python3 (site-metrics)");
}


fn nginx(pid: &str) -> ScannedProcess {
    ScannedProcess {
        name: pid.to_owned(),
        links: vec!["socket:[5000]".to_owned()],
        comm: Some("nginx\n".to_owned()),
        exe: None,
        cgroup: Some("0::/system.slice/nginx.service\n".to_owned()),
        status: None,
    }
}

#[test]
fn a_socket_held_by_several_processes_resolves_the_same_way_every_scan() {
    for order in [["2000", "1000"], ["1000", "2000"]] {
        let scan = vec![nginx(order[0]), nginx(order[1])];
        let map = holders_by_inode(&scan);
        assert_eq!(map[&5000].pid, 1000, "lowest pid, not last-scanned");
        assert_eq!(map[&5000].owner, Owner::Service("nginx".to_owned()));
        assert_eq!(map[&5000].comm, "nginx");
    }
}

#[test]
fn scanning_a_missing_proc_tree_returns_empty_rather_than_panicking() {
    assert!(holders_by_inode(&vec![]).is_empty());
}
