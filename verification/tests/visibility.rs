//! Whether the instrument worked.

use throughline::visibility::{
    assess, interfaces_with_traffic, is_android, ProcFacts, Sight,
};

fn tree(dev: &str, with_tcp: bool) -> ProcFacts {
    ProcFacts {
        root: "/proc".to_owned(),
        has_tcp: with_tcp,
        has_tcp6: false,
        net_dev: Some(dev.to_owned()),
        version: None,
        build_prop: false,
        termux: false,
    }
}

const BUSY: &str = "\
Inter-|   Receive                                                |  Transmit
 face |bytes    packets errs drop fifo frame compressed multicast|bytes    packets
    lo: 9999999   12345    0    0    0     0          0         0  9999999   12345
  eth0: 4823991    9021    0    0    0     0          0         0  1922233    7654
";
const IDLE: &str = "\
Inter-|   Receive                                                |  Transmit
 face |bytes    packets errs drop fifo frame compressed multicast|bytes    packets
    lo:       0       0    0    0    0     0          0         0        0       0
  eth0:       0       0    0    0    0     0          0         0        0       0
";

#[test]
fn an_empty_table_on_a_machine_that_has_moved_traffic_is_a_refusal_not_a_fact() {
    let d = tree(BUSY, true);
    let v = assess(&d, 0, 0);
    assert_eq!(v.sight, Sight::TablesWithheld);
    assert!(!v.sight.can_be_trusted());
    assert!(v.evidence.contains("carried packets"), "{}", v.evidence);
    assert!(v.headline().starts_with("CANNOT SEE"));
    assert!(v.remedy.is_some());
}

#[test]
fn an_empty_table_on_a_machine_that_has_moved_nothing_is_believed() {
    let d = tree(IDLE, true);
    let v = assess(&d, 0, 0);
    assert_eq!(v.sight, Sight::Full);
    assert!(v.sight.can_be_trusted());
}

#[test]
fn seeing_sockets_but_owning_none_of_them_is_its_own_state() {
    let d = tree(BUSY, true);
    let v = assess(&d, 42, 0);
    assert_eq!(v.sight, Sight::OwnProcessOnly);
    assert!(v.sight.can_be_trusted(), "the connections are real");
    assert!(v.headline().contains("not which programs"));
}

#[test]
fn no_proc_net_at_all_is_distinguished_from_being_refused() {
    let d = tree(BUSY, false);
    let v = assess(&d, 0, 0);
    assert_eq!(v.sight, Sight::NoProcNet);
    assert!(v.remedy.is_none(), "root will not conjure /proc/net");
}

#[test]
fn loopback_alone_does_not_count_as_having_been_on_a_network() {
    let lo_only = "\
Inter-|   Receive                                                |  Transmit
 face |bytes    packets errs drop fifo frame compressed multicast|bytes    packets
    lo: 9999999   12345    0    0    0     0          0         0  9999999   12345
";
    let d = tree(lo_only, true);
    assert_eq!(interfaces_with_traffic(d.net_dev.as_deref()), 0);
    assert_eq!(assess(&d, 0, 0).sight, Sight::Full);
}

#[test]
fn the_android_remedy_is_not_the_linux_one() {
    let mut d = tree(BUSY, true);
    d.version = Some("Linux version 5.10.0-android13-4\n".to_owned());
    let v = assess(&d, 0, 0);
    assert!(v.android);
    assert!(v.remedy.as_ref().unwrap().contains("Android"), "{:?}", v.remedy);
    assert!(!v.remedy.as_ref().unwrap().contains("run it as root"));
}

#[test]
fn this_machine_can_see_itself() {
    let d = tree(BUSY, true);
    let v = assess(&d, 3, 2);
    assert_eq!(v.sight, Sight::Full, "{}", v.evidence);
    assert!(v.remedy.is_none());
    assert!(!v.headline().is_empty());
}

#[test]
fn the_evidence_is_exact() {
    let full = assess(&tree(BUSY, true), 3, 2);
    assert!(full.evidence.contains('3') && full.evidence.contains('2'), "{}", full.evidence);
    let own = assess(&tree(BUSY, true), 42, 0);
    assert_eq!(
        own.evidence,
        "42 socket(s) readable, but none could be traced to a process: no /proc/<pid>/fd outside \
         this process is readable."
    );
    let none = assess(&tree(BUSY, false), 0, 0);
    assert_eq!(none.evidence, "/proc/net/tcp and tcp6 do not exist");
}

#[test]
fn android_is_known_by_any_of_its_marks() {
    let plain = tree(IDLE, true);
    assert!(!is_android(&plain));
    assert!(is_android(&ProcFacts { termux: true, ..tree(IDLE, true) }));
    assert!(is_android(&ProcFacts { build_prop: true, ..tree(IDLE, true) }));
    assert!(is_android(&ProcFacts {
        version: Some("Linux version 5.10 (Android)".to_owned()),
        ..tree(IDLE, true)
    }));
}

#[test]
fn sight_has_tags() {
    assert_eq!(Sight::Full.tag(), "full");
    assert_eq!(Sight::OwnProcessOnly.tag(), "own-process-only");
    assert_eq!(Sight::TablesWithheld.tag(), "tables-withheld");
    assert_eq!(Sight::NoProcNet.tag(), "no-proc-net");
}

#[test]
fn interfaces_are_counted_by_what_they_carried() {
    assert_eq!(interfaces_with_traffic(Some(BUSY)), 1);
    assert_eq!(interfaces_with_traffic(Some(IDLE)), 0);
    assert_eq!(interfaces_with_traffic(None), 0);
}
