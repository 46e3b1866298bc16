//! The canvas.

use throughline::scene::{Kind, Node, Origin, Scene};

fn tidy(s: &mut Scene<(f32, f32)>, column: f32, row: f32) {
    let columns = [0u8, 1, 2, 3, 4].map(|rank| f32::from(rank) * column);
    let rows: Vec<f32> = (0..s.nodes.len()).map(|slot| slot as f32 * row).collect();
    s.tidy(&columns, &rows);
}

fn n(id: &str, kind: Kind, origin: Origin) -> Node<(f32, f32)> {
    Node {
        id: id.to_owned(),
        kind,
        label: id.to_owned(),
        detail: String::new(),
        origin,
        pos: (0.0, 0.0),
        live: false,
    }
}

fn scene() -> Scene<(f32, f32)> {
    let mut s = Scene::default();
    s.upsert(n("host", Kind::Host, Origin::Observed));
    s.upsert(n("firefox", Kind::Program, Origin::Observed));
    s.upsert(n("eth0", Kind::Interface, Origin::Observed));
    s
}

#[test]
fn re_reading_the_machine_does_not_scatter_a_layout() {
    let mut s = scene();
    s.node_mut("firefox").unwrap().pos = (400.0, 120.0);
    let mut fresh = n("firefox", Kind::Program, Origin::Observed);
    fresh.detail = "pid 4321".to_owned();
    fresh.live = true;
    s.upsert(fresh);
    let f = s.node("firefox").unwrap();
    assert_eq!(f.pos, (400.0, 120.0), "position must survive a refresh");
    assert_eq!(f.detail, "pid 4321", "but the facts must update");
    assert!(f.live);
    assert_eq!(s.nodes.len(), 3, "and it must not be duplicated");
}

#[test]
fn a_running_program_cannot_be_deleted_from_the_picture() {
    let mut s = scene();
    assert!(!s.remove("firefox"));
    assert!(s.node("firefox").is_some());
    s.upsert(n("wg0", Kind::Tunnel, Origin::Proposed));
    assert!(s.remove("wg0"), "something proposed can be taken back");
}

#[test]
fn removing_a_node_takes_its_links_with_it() {
    let mut s = scene();
    s.upsert(n("wg0", Kind::Tunnel, Origin::Proposed));
    assert!(s.connect("firefox", "wg0", Origin::Proposed));
    assert!(s.remove("wg0"));
    assert!(s.links.is_empty(), "a link to nothing is not a link");
}

#[test]
fn a_node_cannot_be_joined_to_itself_or_joined_twice() {
    let mut s = scene();
    assert!(!s.connect("firefox", "firefox", Origin::Proposed));
    assert!(s.connect("firefox", "eth0", Origin::Proposed));
    assert!(
        !s.connect("firefox", "eth0", Origin::Proposed),
        "already joined"
    );
    assert!(
        !s.connect("eth0", "firefox", Origin::Proposed),
        "the other way round too"
    );
    assert_eq!(s.links.len(), 1);
    assert!(!s.connect("firefox", "nowhere", Origin::Proposed));
}

#[test]
fn a_link_the_machine_reported_cannot_be_drawn_away() {
    let mut s = scene();
    s.connect("firefox", "eth0", Origin::Observed);
    assert!(!s.disconnect("firefox", "eth0"));
    assert_eq!(s.links.len(), 1);
}

#[test]
fn tidying_is_left_to_right_along_the_path_and_repeatable() {
    let mut s = scene();
    s.upsert(n("wg0", Kind::Tunnel, Origin::Proposed));
    s.upsert(n("1.1.1.1", Kind::Destination, Origin::Observed));
    tidy(&mut s, 200.0, 90.0);
    let x = |id: &str| -> f32 { s.node(id).unwrap().pos.0 };
    assert!(x("host") < x("firefox"));
    assert!(x("firefox") < x("wg0"));
    assert!(x("wg0") <= x("eth0"), "a tunnel sits with the interfaces");
    assert!(x("eth0") < x("1.1.1.1"));
    let once: Vec<_> = s.nodes.iter().map(|n| (n.id.clone(), n.pos)).collect();
    tidy(&mut s, 200.0, 90.0);
    let twice: Vec<_> = s.nodes.iter().map(|n| (n.id.clone(), n.pos)).collect();
    assert_eq!(once, twice, "tidying twice must not move anything");
}

#[test]
fn only_things_that_could_exist_can_be_added_by_hand() {
    assert!(Kind::Tunnel.can_be_added());
    assert!(Kind::Destination.can_be_added());
    assert!(!Kind::Host.can_be_added(), "there is one machine");
    assert!(!Kind::Internet.can_be_added(), "and one internet");
    assert!(
        !Kind::Program.can_be_added(),
        "you cannot invent a running program"
    );
    assert!(!Kind::Interface.can_be_added());
}

#[test]
fn the_proposal_is_separable_from_the_observation() {
    let mut s = scene();
    s.upsert(n("wg0", Kind::Tunnel, Origin::Proposed));
    s.connect("firefox", "eth0", Origin::Observed);
    s.connect("firefox", "wg0", Origin::Proposed);
    let (nodes, links) = s.proposed();
    assert_eq!(nodes.len(), 1);
    assert_eq!(nodes[0].id, "wg0");
    assert_eq!(links.len(), 1);
    assert_eq!(links[0].to, "wg0");
}

#[test]
fn a_drawn_link_can_be_taken_back_either_way_round() {
    let mut s = scene();
    assert!(s.connect("firefox", "eth0", Origin::Proposed));
    assert!(s.linked("eth0", "firefox"));
    assert!(!s.disconnect("host", "eth0"));
    assert!(s.disconnect("eth0", "firefox"));
    assert!(s.links.is_empty());
    assert!(!s.remove("nowhere"));
}

#[test]
fn no_two_nodes_share_a_cell() {
    let mut s = scene();
    s.upsert(n("chrome", Kind::Program, Origin::Observed));
    s.upsert(n("wg0", Kind::Tunnel, Origin::Proposed));
    let cells = s.cells();
    assert_eq!(cells.len(), 5);
    for i in 0..cells.len() {
        for j in 0..i {
            assert_ne!(cells[i], cells[j]);
        }
    }
}

#[test]
fn every_kind_has_a_label_and_a_rank() {
    for k in [
        Kind::Host,
        Kind::Program,
        Kind::Tunnel,
        Kind::Interface,
        Kind::Destination,
        Kind::Internet,
    ] {
        assert!(!k.label().is_empty());
    }
    assert!(Kind::Host.rank() < Kind::Program.rank());
    assert_eq!(Kind::Tunnel.rank(), Kind::Interface.rank());
}

#[test]
fn equal_labels_are_laid_out_alike_in_any_order() {
    let build = |ids: [&str; 2]| {
        let mut s = Scene::default();
        for id in ids {
            let mut node = n(id, Kind::Destination, Origin::Observed);
            node.label = "example.org".into();
            s.upsert(node);
        }
        tidy(&mut s, 200.0, 90.0);
        s
    };
    let (a, b) = (build(["x", "y"]), build(["y", "x"]));
    for id in ["x", "y"] {
        assert_eq!(a.node(id).unwrap().pos, b.node(id).unwrap().pos, "{id}");
    }
    assert!(a.node("x").unwrap().pos.1 < a.node("y").unwrap().pos.1);
}

#[test]
fn a_column_is_filled_from_the_top_in_the_order_of_its_labels() {
    let mut s = scene();
    for id in ["wget", "curl", "apt"] {
        s.upsert(n(id, Kind::Program, Origin::Observed));
    }
    s.connect("curl", "eth0", Origin::Observed);
    let before = s.clone();
    tidy(&mut s, 200.0, 90.0);
    for (id, pos) in [
        ("host", (0.0, 0.0)),
        ("apt", (200.0, 0.0)),
        ("curl", (200.0, 90.0)),
        ("firefox", (200.0, 180.0)),
        ("wget", (200.0, 270.0)),
        ("eth0", (600.0, 0.0)),
    ] {
        assert_eq!(s.node(id).unwrap().pos, pos, "{id}");
    }
    assert_eq!(s.links, before.links);
    for (a, b) in s.nodes.iter().zip(&before.nodes) {
        assert_eq!(a.id, b.id);
        assert_eq!(a.label, b.label);
        assert_eq!(a.kind, b.kind);
    }
}
