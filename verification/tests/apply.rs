//! The record of what is applied, and the commands around it.

use throughline::apply::{
    argv, baseline_flushes, state_path, status, undo_for, unit_name, Applied, ApplyError, Options,
    Status, DEADMAN_UNIT,
};
use throughline::policy::{Host, Path, Plan, Policy};
use throughline::preflight::Refusal;

#[test]
fn the_record_round_trips() {
    let a = Applied {
        revert: vec![
            "nft delete table inet throughline".into(),
            "ip route flush table 7401".into(),
        ],
        deadman: true,
    };
    let back = Applied::parse(&a.serialise());
    assert_eq!(back, a);
    let off = Applied { deadman: false, ..a.clone() };
    assert_eq!(Applied::parse(&off.serialise()), off);
}

#[test]
fn a_namespace_run_uses_nsenter_and_not_ip_netns_exec() {
    let v = argv(Some("tl-app"), "nft -f -");
    assert_eq!(v[0], "nsenter");
    assert_eq!(v[1], "--net=/var/run/netns/tl-app");
    assert_eq!(argv(None, "nft list tables")[0], "nft");
}

#[test]
fn a_partial_apply_undoes_only_what_was_actually_done() {
    let plan = Plan {
        ip: vec!["a".into(), "b".into()],
        revert: vec![
            "nft delete table inet throughline".into(),
            "undo-a".into(),
            "undo-b".into(),
        ],
        ..Plan::default()
    };
    assert_eq!(undo_for(&plan, 2), vec!["nft delete table inet throughline", "undo-a", "undo-b"]);
    assert_eq!(undo_for(&plan, 1), vec!["undo-a", "undo-b"]);
    assert_eq!(undo_for(&plan, 0), vec!["undo-a", "undo-b"]);
}

#[test]
fn every_disagreement_between_plan_and_kernel_has_a_name() {
    let s = |r, t, u| Status { recorded: r, table_present: t, rules_present: u, deadman_armed: false };
    assert_eq!(s(false, false, false).describe(), "nothing applied");
    assert!(s(true, true, true).describe().starts_with("applied and confirmed"));
    assert!(s(true, false, true).describe().contains("flush ruleset"));
    assert!(s(true, true, false).describe().contains("marks lead nowhere"));
    assert!(s(false, true, false).describe().contains("NOTHING RECORDED"));
    assert!(s(true, false, false).describe().contains("reverted by hand"));
    let armed = Status { deadman_armed: true, ..s(true, true, true) };
    assert!(armed.describe().contains("unless confirmed"));
}

#[test]
fn a_namespaced_run_keeps_its_own_record_and_its_own_timer() {
    let ns = Options { netns: Some("tl-app".into()), ..Options::default() };
    assert_ne!(state_path(&ns), state_path(&Options::default()));
    assert_eq!(unit_name(Some("tl-app")), "throughline-revert-tl-app");
    assert_eq!(unit_name(None), DEADMAN_UNIT);
}

#[test]
fn a_second_apply_replaces_the_first_rather_than_colliding_with_it() {
    let half = Status {
        recorded: true,
        table_present: true,
        rules_present: false,
        deadman_armed: false,
    };
    assert!(half.describe().contains("marks lead nowhere"));
}

#[test]
fn the_default_leaves_the_switch_armed() {
    assert!(Options::default().deadman_secs >= 60);
    assert!(!Options::default().dry_run);
}

#[test]
fn a_baseline_that_flushes_is_detected() {
    let flushing = "#!/usr/sbin/nft -f\n\nflush ruleset\n\ntable inet filter {}\n";
    assert!(baseline_flushes(Some(flushing)));
    assert!(!baseline_flushes(Some("#!/usr/sbin/nft -f\ntable inet filter {}\n")));
    assert!(!baseline_flushes(None));
}

#[test]
fn a_record_is_two_lines_of_header_and_the_commands() {
    let a = Applied { revert: vec!["nft delete table inet throughline".into()], deadman: true };
    assert_eq!(
        a.serialise(),
        "# throughline: applied. Each line undoes one thing, in order.\n\
         # deadman=true\n\
         nft delete table inet throughline\n"
    );
    let odd = Applied::parse("  ip rule del x  \n\n# a comment\n  # deadman=true\n");
    assert_eq!(odd, Applied { revert: vec!["ip rule del x".into()], deadman: true });
}

#[test]
fn a_command_is_split_into_its_words() {
    assert_eq!(argv(None, "  ip   rule show "), vec!["ip", "rule", "show"]);
    assert_eq!(argv(Some("x"), "").len(), 2);
}

#[test]
fn each_error_says_what_to_do() {
    let refused = ApplyError::Refused(vec![Refusal::TorUidUnknown]);
    assert_eq!(
        refused.to_text(),
        format!("not applied:\n  - {}\n", Refusal::TorUidUnknown.explain())
    );
    let back = ApplyError::RolledBack { failed: "ip rule add".into(), stderr: " File exists\n".into() };
    assert_eq!(
        back.to_text(),
        "ip rule add failed, so nothing was applied. The machine is as it was.\n  File exists"
    );
    let stranded =
        ApplyError::Stranded { failed: "rollback".into(), remaining: vec!["a".into(), "b".into()] };
    assert_eq!(
        stranded.to_text(),
        "rollback failed AND the undo failed. Run by hand:\n  a\n  b\n"
    );
    let dial = ApplyError::VerificationFailed { target: "192.0.2.1:22".into(), detail: "no".into() };
    assert!(dial.to_text().starts_with(
        "applied, then could not open a new connection to 192.0.2.1:22 (no), so it was reverted."
    ));
    assert_eq!(ApplyError::Io("gone".into()).to_text(), "gone");
}

#[test]
fn the_machine_is_compared_with_the_record() {
    let record = Applied {
        revert: vec![
            "nft delete table inet throughline".into(),
            "ip route flush table 7401".into(),
            "ip rule del fwmark 0x7401 lookup 7401 priority 1000".into(),
        ],
        deadman: true,
    }
    .serialise();
    let tables = "table inet filter\ntable inet throughline\n";
    let rules = "0:\tfrom all lookup local\n1000:\tfrom all fwmark 0x7401 lookup 7401\n";
    let all = status(Some(&record), Some(tables), Some(rules), Some("active\n"));
    assert_eq!(
        all,
        Status { recorded: true, table_present: true, rules_present: true, deadman_armed: true }
    );
    let gone = status(Some(&record), Some("table inet filter\n"), Some(rules), Some("inactive\n"));
    assert_eq!(
        gone,
        Status { recorded: true, table_present: false, rules_present: true, deadman_armed: false }
    );
    let other = "1000:\tfrom all fwmark 0x74010 lookup 7401\n";
    assert!(!status(Some(&record), Some(tables), Some(other), None).rules_present);
    let nothing = status(None, None, None, None);
    assert_eq!(nothing.describe(), "nothing applied");
    assert!(!status(Some(&record), Some(tables), None, None).rules_present);
}

#[test]
fn a_compiled_plan_can_be_recorded_and_read_back() {
    let policy = Policy { rules: vec![], default_path: Path::Vpn { interface: "wg0".into() } };
    let plan: Plan = policy.compile(&Host::default());
    let a = Applied { revert: plan.revert.clone(), deadman: false };
    assert_eq!(Applied::parse(&a.serialise()).revert, plan.revert);
}

#[test]
fn a_record_without_rules_has_none_missing() {
    let record =
        Applied { revert: vec!["nft delete table inet throughline".into()], deadman: false }
            .serialise();
    let s = status(Some(&record), Some("table inet throughline\n"), Some(""), None);
    assert_eq!(
        s,
        Status { recorded: true, table_present: true, rules_present: true, deadman_armed: false }
    );
    assert_eq!(s.describe(), "applied and confirmed");
}
