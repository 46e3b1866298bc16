//! Applying, reverting and confirming against a machine that answers.

use throughline::apply::{Applied, ApplyError, Options};
use throughline::policy::{Host, Path, Plan, Policy};
use throughline::steps::{apply, confirm, revert, Action, Outcome};

/// What a run did, command lines and files alike.
struct Machine {
    did: Vec<String>,
    record: Option<String>,
    /// The command lines that fail, by how they begin.
    fails: Vec<&'static str>,
}

impl Machine {
    fn new(fails: Vec<&'static str>) -> Machine {
        Machine { did: vec![], record: None, fails }
    }

    fn run(&mut self, line: String) -> Outcome {
        let failed = self.fails.iter().any(|f| line.starts_with(f));
        self.did.push(line);
        if failed {
            Outcome::Failed("it did not work\n".to_owned())
        } else {
            Outcome::Done
        }
    }

    fn perform(&mut self, action: Action) -> Outcome {
        match action {
            Action::Print(text) => {
                self.did.push(format!("print {text}"));
                Outcome::Done
            }
            Action::Read { path } => match &self.record {
                Some(text) => Outcome::Text(text.clone()),
                None => Outcome::Error(format!("{path}: not found")),
            },
            Action::Disarm { stop, reset } => {
                self.did.push(stop.join(" "));
                self.did.push(reset.join(" "));
                Outcome::Done
            }
            Action::Run { argv } => self.run(argv.join(" ")),
            Action::Load { argv, .. } => self.run(argv.join(" ")),
            Action::Write { path, text } => {
                if self.fails.contains(&"write") {
                    self.record = Some(text.chars().take(20).collect());
                    return Outcome::Error("disk full".to_owned());
                }
                self.did.push(format!("write {path}"));
                self.record = Some(text);
                Outcome::Done
            }
            Action::Remove { path } => {
                self.did.push(format!("remove {path}"));
                self.record = None;
                Outcome::Done
            }
        }
    }

    fn apply(&mut self, opts: &Options) -> Result<Applied, ApplyError> {
        let (policy, host, plan) = case();
        let mut task = apply(&policy, &host, &plan, opts);
        while let Some(action) = task.action() {
            let outcome = self.perform(action);
            task = task.advance(outcome);
        }
        task.finish().unwrap()
    }

    fn revert(&mut self) -> Result<Applied, ApplyError> {
        let mut task = revert(&Options::default());
        while let Some(action) = task.action() {
            let outcome = self.perform(action);
            task = task.advance(outcome);
        }
        task.finish().unwrap()
    }

    fn confirm(&mut self) -> Result<Applied, ApplyError> {
        let mut task = confirm(&Options::default());
        while let Some(action) = task.action() {
            let outcome = self.perform(action);
            task = task.advance(outcome);
        }
        task.finish().unwrap()
    }
}

fn case() -> (Policy, Host, Plan) {
    let policy = Policy { rules: vec![], default_path: Path::Vpn { interface: "wg0".into() } };
    let host = Host { interfaces: vec!["wg0".into()], ..Host::default() };
    let plan = policy.compile(&host);
    (policy, host, plan)
}

const STOP: &str = "systemctl stop throughline-revert.timer";
const RESET: &str = "systemctl reset-failed throughline-revert";
const ADD_RULE: &str = "ip rule add fwmark 0x7401 lookup 7401 priority 1000";
const ADD_ROUTE: &str = "ip route add default dev wg0 table 7401";
const DEL_TABLE: &str = "nft delete table inet throughline";
const DEL_ROUTE: &str = "ip route flush table 7401";
const DEL_RULE: &str = "ip rule del fwmark 0x7401 lookup 7401 priority 1000";

#[test]
fn routing_comes_first_and_the_ruleset_last() {
    let mut m = Machine::new(vec![]);
    let applied = m.apply(&Options::default()).unwrap();
    assert!(applied.deadman);
    assert_eq!(applied.revert, vec![DEL_TABLE, DEL_ROUTE, DEL_RULE]);
    assert_eq!(m.did[..3], [ADD_RULE, ADD_ROUTE, "nft -f -"]);
    assert_eq!(m.did[3..5], [STOP, RESET]);
    assert_eq!(
        m.did[5],
        format!(
            "systemd-run --unit=throughline-revert --on-active=120s \
             --timer-property=AccuracySec=1s \
             --description=Throughline: undo the routing policy unless confirmed \
             /bin/sh -c {DEL_TABLE}; {DEL_ROUTE}; {DEL_RULE}"
        )
    );
    assert_eq!(m.did[6], "write /run/throughline/applied");
    assert_eq!(m.did.len(), 7);
    assert_eq!(Applied::parse(m.record.as_deref().unwrap()), applied);
}

#[test]
fn without_a_switch_nothing_is_armed() {
    let mut m = Machine::new(vec![]);
    let applied = m.apply(&Options { deadman_secs: 0, ..Options::default() }).unwrap();
    assert!(!applied.deadman);
    assert!(m.did.iter().all(|d| !d.starts_with("systemd-run")));
}

#[test]
fn a_failure_half_way_is_taken_back() {
    let mut m = Machine::new(vec!["ip route add"]);
    match m.apply(&Options::default()) {
        Err(ApplyError::RolledBack { failed, stderr }) => {
            assert_eq!(failed, ADD_ROUTE);
            assert_eq!(stderr, "it did not work\n");
        }
        other => panic!("{other:?}"),
    }
    assert_eq!(m.did, [ADD_RULE, ADD_ROUTE, DEL_ROUTE, DEL_RULE]);
}

#[test]
fn a_ruleset_that_does_not_load_is_taken_back() {
    let mut m = Machine::new(vec!["nft -f"]);
    match m.apply(&Options::default()) {
        Err(ApplyError::RolledBack { failed, .. }) => assert_eq!(failed, "nft -f -"),
        other => panic!("{other:?}"),
    }
    assert_eq!(m.did, [ADD_RULE, ADD_ROUTE, "nft -f -", DEL_TABLE, DEL_ROUTE, DEL_RULE]);
}

#[test]
fn a_switch_that_cannot_be_armed_leaves_nothing_applied() {
    let mut m = Machine::new(vec!["systemd-run"]);
    match m.apply(&Options::default()) {
        Err(ApplyError::RolledBack { failed, .. }) => {
            assert_eq!(failed, "systemd-run (dead-man switch)");
        }
        other => panic!("{other:?}"),
    }
    assert_eq!(m.did[m.did.len() - 3..], [DEL_TABLE, DEL_ROUTE, DEL_RULE]);
}

#[test]
fn a_record_that_cannot_be_written_leaves_nothing_applied() {
    let mut m = Machine::new(vec!["write"]);
    match m.apply(&Options::default()) {
        Err(ApplyError::Io(e)) => assert_eq!(e, "disk full"),
        other => panic!("{other:?}"),
    }
    assert_eq!(
        m.did[m.did.len() - 6..],
        [STOP, RESET, DEL_TABLE, DEL_ROUTE, DEL_RULE, "remove /run/throughline/applied"]
    );
    assert!(m.record.is_none(), "not even a part of it is left");
}

#[test]
fn a_new_connection_that_fails_reverts_the_policy() {
    let opts = Options { verify: Some("192.0.2.1:443".into()), ..Options::default() };
    let mut m = Machine::new(vec!["timeout"]);
    match m.apply(&opts) {
        Err(ApplyError::VerificationFailed { target, detail }) => {
            assert_eq!(target, "192.0.2.1:443");
            assert_eq!(detail, "it did not work");
        }
        other => panic!("{other:?}"),
    }
    assert!(m.did.contains(&"timeout 6 bash -c exec 3<>/dev/tcp/192.0.2.1/443".to_owned()));
    assert_eq!(
        m.did[m.did.len() - 4..],
        [DEL_TABLE, DEL_ROUTE, DEL_RULE, "remove /run/throughline/applied"]
    );
    assert!(m.did.contains(&STOP.to_owned()));
    assert!(m.record.is_none());
    let mut good = Machine::new(vec![]);
    assert!(good.apply(&opts).is_ok());
}

#[test]
fn a_rollback_that_fails_too_says_what_remains() {
    let mut m = Machine::new(vec!["nft", "ip route flush", "ip rule del"]);
    match m.apply(&Options::default()) {
        Err(ApplyError::Stranded { failed, remaining }) => {
            assert_eq!(failed, "rollback");
            assert_eq!(remaining, vec![DEL_TABLE, DEL_ROUTE, DEL_RULE]);
        }
        other => panic!("{other:?}"),
    }
}

#[test]
fn what_is_applied_already_is_taken_out_first() {
    let mut m = Machine::new(vec![]);
    m.apply(&Options::default()).unwrap();
    m.did.clear();
    m.apply(&Options::default()).unwrap();
    assert_eq!(m.did[..2], [STOP, RESET]);
    assert_eq!(m.did[2..5], [DEL_TABLE, DEL_ROUTE, DEL_RULE]);
    assert_eq!(m.did[5], "remove /run/throughline/applied");
    assert_eq!(m.did[6], ADD_RULE);
}

#[test]
fn a_plan_that_is_refused_is_not_begun() {
    let (policy, _, plan) = case();
    let mut task = apply(&policy, &Host::default(), &plan, &Options::default());
    assert!(task.action().is_none());
    task = task.advance(Outcome::Done);
    match task.finish().unwrap() {
        Err(ApplyError::Refused(r)) => assert_eq!(r.len(), 1),
        other => panic!("{other:?}"),
    }
}

#[test]
fn a_rehearsal_prints_and_changes_nothing() {
    let mut m = Machine::new(vec![]);
    let opts = Options { dry_run: true, ..Options::default() };
    let applied = m.apply(&opts).unwrap();
    assert!(!applied.deadman);
    let (_, _, plan) = case();
    assert_eq!(
        m.did,
        [format!("print {ADD_RULE}\n{ADD_ROUTE}\n nft -f - <<'RULES'\n{}RULES\n", plan.nft)]
    );
}

#[test]
fn a_namespaced_run_enters_its_namespace() {
    let mut m = Machine::new(vec![]);
    let opts = Options { netns: Some("lab".into()), ..Options::default() };
    m.apply(&opts).unwrap();
    assert_eq!(m.did[0], format!("nsenter --net=/var/run/netns/lab {ADD_RULE}"));
    assert!(m.did[5].contains("--unit=throughline-revert-lab"));
    assert!(m.did[5].contains("/usr/bin/nsenter --net=/var/run/netns/lab /bin/sh -c"));
    assert_eq!(m.did[6], "write /run/throughline/applied.lab");
}

#[test]
fn reverting_undoes_what_was_recorded() {
    let mut m = Machine::new(vec![]);
    let applied = m.apply(&Options::default()).unwrap();
    m.did.clear();
    assert_eq!(m.revert().unwrap(), applied);
    assert_eq!(
        m.did,
        [STOP, RESET, DEL_TABLE, DEL_ROUTE, DEL_RULE, "remove /run/throughline/applied"]
    );
    assert!(m.record.is_none());
    match m.revert() {
        Err(ApplyError::Io(e)) => assert_eq!(e, "/run/throughline/applied: not found"),
        other => panic!("{other:?}"),
    }
}

#[test]
fn confirming_keeps_the_policy_and_stops_the_switch() {
    let mut m = Machine::new(vec![]);
    let applied = m.apply(&Options::default()).unwrap();
    m.did.clear();
    let kept = m.confirm().unwrap();
    assert_eq!(kept.revert, applied.revert);
    assert!(!kept.deadman);
    assert_eq!(m.did, [STOP, RESET, "write /run/throughline/applied"]);
    assert_eq!(Applied::parse(m.record.as_deref().unwrap()), kept);
}
