//! Putting a plan into the kernel, and getting it back out again.
//!
//! Everything else produces text. This is the part that decides how the
//! machine is changed, and the whole design is about the ways that goes wrong.
//!
//! **Fail closed.** `nft -f` is one atomic kernel transaction: all rules or
//! none. The `ip` commands are not; each is its own system call. So the order
//! matters and only one order is safe: routing first, ruleset last. An
//! `ip rule` that matches a mark nothing sets is inert, so a failure half way
//! leaves the machine exactly as it was.
//!
//! **The dead-man switch lives elsewhere.** A countdown inside this process
//! would die with the session it is protecting, so the revert is handed to
//! systemd.
//!
//! **"My session still works" proves nothing.** Every open flow is
//! `established` at the instant the ruleset lands, and the exclusions return
//! early for exactly those. Only a new connection tests what was just applied.
//!
//! Nothing is executed here. Each task says what has to be done next, is told
//! how that went, and in the end says what came of it.

use vstd::prelude::*;
use vstd::string::*;

use crate::num::{dec, push_dec, push_truth, truth};
use crate::order::views;
use crate::policy::{Plan, PlanView, TABLE};
use crate::preflight::{Refusal, RefusalView};
use crate::text::{
    amid, begins, contains, copies, copy, copy_opt, debug_str, holds, is_line, join, joined,
    lemma_inside, lemma_line_inside, lemma_texts_push, lines, lines_of, lines_read_back, opt_string, opt_text, replace_char,
    replaced_char, same, starts_with, texts, trim, trim_start_str, trimmed, trimmed_start_str,
    unlines, with_line_feeds, words, words_of,
};

verus! {

/// Where the record of what is applied lives.
///
/// `/run` is tmpfs, so this disappears on reboot, and so does everything it
/// describes.
pub const STATE: &'static str = "/run/throughline/applied";

/// The systemd unit that holds the revert.
pub const DEADMAN_UNIT: &'static str = "throughline-revert";

/// What went wrong.
#[derive(Debug)]
pub enum ApplyError {
    /// The plan should not be applied. Nothing was attempted.
    Refused(Vec<Refusal>),
    /// A command failed, and everything already done has been undone.
    RolledBack { failed: String, stderr: String },
    /// A command failed and the rollback also failed. The machine is in a
    /// state nobody planned; the remaining steps are listed so a person can
    /// finish by hand.
    Stranded { failed: String, remaining: Vec<String> },
    /// The new connection made after applying did not work, so the policy was
    /// reverted.
    VerificationFailed { target: String, detail: String },
    /// Something could not be read, written or started.
    Io(String),
}

/// What an [`ApplyError`] says.
pub enum ErrorView {
    Refused(Seq<RefusalView>),
    RolledBack { failed: Seq<char>, stderr: Seq<char> },
    Stranded { failed: Seq<char>, remaining: Seq<Seq<char>> },
    VerificationFailed { target: Seq<char>, detail: Seq<char> },
    Io(Seq<char>),
}

impl View for ApplyError {
    type V = ErrorView;

    open spec fn view(&self) -> ErrorView {
        match *self {
            ApplyError::Refused(r) => ErrorView::Refused(views(r@)),
            ApplyError::RolledBack { failed, stderr } => ErrorView::RolledBack {
                failed: failed@,
                stderr: stderr@,
            },
            ApplyError::Stranded { failed, remaining } => ErrorView::Stranded {
                failed: failed@,
                remaining: texts(remaining@),
            },
            ApplyError::VerificationFailed { target, detail } => ErrorView::VerificationFailed {
                target: target@,
                detail: detail@,
            },
            ApplyError::Io(e) => ErrorView::Io(e@),
        }
    }
}

/// Refusals as a list to read.
pub open spec fn refusal_lines(r: Seq<RefusalView>) -> Seq<Seq<char>> {
    Seq::new(r.len(), |i: int| "  - "@ + r[i].sentence(debug_str(r[i].subject())))
}

/// Commands as a list to read.
pub open spec fn indented(c: Seq<Seq<char>>) -> Seq<Seq<char>> {
    Seq::new(c.len(), |i: int| "  "@ + c[i])
}

impl ErrorView {
    pub open spec fn message(self) -> Seq<char> {
        match self {
            ErrorView::Refused(r) => unlines(seq!["not applied:"@] + refusal_lines(r)),
            ErrorView::RolledBack { failed, stderr } => failed
                + " failed, so nothing was applied. The machine is as it was.\n  "@ + trim(stderr),
            ErrorView::Stranded { failed, remaining } => unlines(
                seq![failed + " failed AND the undo failed. Run by hand:"@] + indented(remaining),
            ),
            ErrorView::VerificationFailed { target, detail } =>
            "applied, then could not open a new connection to "@ + target + " ("@ + detail
                + "), so it was reverted. An existing session surviving would have proved nothing: every open flow is excluded by construction."@,
            ErrorView::Io(e) => e,
        }
    }
}

impl ApplyError {
    /// What to tell a person.
    pub fn to_text(&self) -> (r: String)
        ensures
            r@ == self@.message(),
    {
        match self {
            ApplyError::Refused(r) => {
                let mut out: Vec<String> = Vec::new();
                out.push(String::from_str("not applied:"));
                let ghost head = seq!["not applied:"@];
                assert(texts(out@) =~= head + refusal_lines(views(r@)).take(0));
                let mut i: usize = 0;
                while i < r.len()
                    invariant
                        i <= r@.len(),
                        texts(out@) == head + refusal_lines(views(r@)).take(i as int),
                    decreases r@.len() - i,
                {
                    let ghost before = out@;
                    let mut s: String = String::from_str("  - ");
                    s.append(r[i].explain().as_str());
                    out.push(s);
                    proof {
                        lemma_texts_push(before, s);
                        assert(views(r@)[i as int] == r@[i as int]@);
                        assert(texts(out@) =~= head + refusal_lines(views(r@)).take(i + 1));
                    }
                    i += 1;
                }
                assert(texts(out@) =~= head + refusal_lines(views(r@)));
                with_line_feeds(&out)
            },
            ApplyError::RolledBack { failed, stderr } => {
                let mut s: String = copy(failed.as_str());
                s.append(" failed, so nothing was applied. The machine is as it was.\n  ");
                s.append(trimmed(stderr.as_str()).as_str());
                s
            },
            ApplyError::Stranded { failed, remaining } => {
                let mut head: String = copy(failed.as_str());
                head.append(" failed AND the undo failed. Run by hand:");
                let ghost first = seq![head@];
                let mut out: Vec<String> = Vec::new();
                out.push(head);
                assert(texts(out@) =~= first + indented(texts(remaining@)).take(0));
                let mut i: usize = 0;
                while i < remaining.len()
                    invariant
                        i <= remaining@.len(),
                        texts(out@) == first + indented(texts(remaining@)).take(i as int),
                    decreases remaining@.len() - i,
                {
                    let ghost before = out@;
                    let mut s: String = String::from_str("  ");
                    s.append(remaining[i].as_str());
                    out.push(s);
                    proof {
                        lemma_texts_push(before, s);
                        assert(texts(out@) =~= first + indented(texts(remaining@)).take(i + 1));
                    }
                    i += 1;
                }
                assert(texts(out@) =~= first + indented(texts(remaining@)));
                with_line_feeds(&out)
            },
            ApplyError::VerificationFailed { target, detail } => {
                let mut s: String = String::from_str(
                    "applied, then could not open a new connection to ",
                );
                s.append(target.as_str());
                s.append(" (");
                s.append(detail.as_str());
                s.append(
                    "), so it was reverted. An existing session surviving would have proved nothing: every open flow is excluded by construction.",
                );
                s
            },
            ApplyError::Io(e) => copy(e.as_str()),
        }
    }
}

/// How to apply.
#[derive(Debug)]
pub struct Options {
    /// Seconds before the policy reverts itself unless confirmed. Zero disables
    /// the switch, which is only sensible somewhere nobody can be locked out
    /// of.
    pub deadman_secs: u32,
    /// `host:port` to open a new connection to after applying. The one check
    /// that actually tests the policy.
    pub verify: Option<String>,
    /// Print what would run instead of running it.
    pub dry_run: bool,
    /// Where `nft`, `ip` and `systemd-run` should be run. `None` is this
    /// machine; `Some(name)` runs them inside that network namespace.
    pub netns: Option<String>,
}

/// What [`Options`] say.
pub struct OptionsView {
    pub deadman_secs: u32,
    pub verify: Option<Seq<char>>,
    pub dry_run: bool,
    pub netns: Option<Seq<char>>,
}

impl View for Options {
    type V = OptionsView;

    open spec fn view(&self) -> OptionsView {
        OptionsView {
            deadman_secs: self.deadman_secs,
            verify: opt_string(self.verify),
            dry_run: self.dry_run,
            netns: opt_string(self.netns),
        }
    }
}

impl Default for Options {
    /// The switch is armed, for two minutes.
    fn default() -> (r: Self)
        ensures
            r@ == (OptionsView { deadman_secs: 120, verify: None, dry_run: false, netns: None }),
    {
        Options { deadman_secs: 120, verify: None, dry_run: false, netns: None }
    }
}

impl Clone for Options {
    fn clone(&self) -> (r: Self)
        ensures
            r@ == self@,
    {
        Options {
            deadman_secs: self.deadman_secs,
            verify: copy_opt(&self.verify),
            dry_run: self.dry_run,
            netns: copy_opt(&self.netns),
        }
    }
}

// ---------------------------------------------------------------------------
// The record
// ---------------------------------------------------------------------------

/// What is currently applied.
#[derive(Debug, PartialEq, Eq)]
pub struct Applied {
    /// Exactly how to undo it.
    pub revert: Vec<String>,
    /// Whether a dead-man switch is still counting down.
    pub deadman: bool,
}

/// What an [`Applied`] says.
pub struct AppliedView {
    pub revert: Seq<Seq<char>>,
    pub deadman: bool,
}

impl View for Applied {
    type V = AppliedView;

    open spec fn view(&self) -> AppliedView {
        AppliedView { revert: texts(self.revert@), deadman: self.deadman }
    }
}

impl Clone for Applied {
    fn clone(&self) -> (r: Self)
        ensures
            r@ == self@,
    {
        Applied { revert: copies(&self.revert), deadman: self.deadman }
    }
}

/// The on-disk form: two lines of header, and a command on each line.
pub open spec fn record_lines(a: AppliedView) -> Seq<Seq<char>> {
    seq![
        "# throughline: applied. Each line undoes one thing, in order."@,
        "# deadman="@ + truth(a.deadman),
    ] + a.revert
}

/// The commands among lines: what is neither blank nor a comment.
pub open spec fn commands(ls: Seq<Seq<char>>) -> Seq<Seq<char>>
    decreases ls.len(),
{
    if ls.len() == 0 {
        seq![]
    } else {
        let before = commands(ls.drop_last());
        let l = trim(ls.last());
        if l.len() == 0 || l[0] == '#' {
            before
        } else {
            before.push(l)
        }
    }
}

/// Whether one of the lines says that a switch is counting down.
pub open spec fn counting(ls: Seq<Seq<char>>) -> bool {
    exists|i: int| 0 <= i < ls.len() && trim(#[trigger] ls[i]) == "# deadman=true"@
}

/// What a record says.
pub open spec fn record_of(text: Seq<char>) -> AppliedView {
    AppliedView { revert: commands(lines(text)), deadman: counting(lines(text)) }
}

impl Applied {
    /// The on-disk form: one command per line, `#` for the header.
    pub fn serialise(&self) -> (r: String)
        ensures
            r@ == unlines(record_lines(self@)),
    {
        let mut out: Vec<String> = Vec::new();
        out.push(
            String::from_str("# throughline: applied. Each line undoes one thing, in order."),
        );
        let mut d: String = String::from_str("# deadman=");
        push_truth(&mut d, self.deadman);
        out.push(d);
        let mut more: Vec<String> = copies(&self.revert);
        let ghost head = out@;
        let ghost tail = more@;
        out.append(&mut more);
        assert(texts(head + tail) =~= record_lines(self@));
        with_line_feeds(&out)
    }

    /// Read it back.
    pub fn parse(text: &str) -> (r: Self)
        ensures
            r@ == record_of(text@),
    {
        let ls: Vec<String> = lines_of(text);
        let ghost all = lines(text@);
        let mut revert: Vec<String> = Vec::new();
        let mut deadman: bool = false;
        let mut i: usize = 0;
        assert(all.take(0) =~= Seq::<Seq<char>>::empty());
        assert(texts(revert@) =~= commands(all.take(0)));
        while i < ls.len()
            invariant
                i <= ls@.len(),
                all == texts(ls@),
                all == lines(text@),
                texts(revert@) == commands(all.take(i as int)),
                deadman == exists|k: int|
                    0 <= k < i && trim(#[trigger] all[k]) == "# deadman=true"@,
            decreases ls@.len() - i,
        {
            assert(all.take(i + 1).drop_last() =~= all.take(i as int));
            assert(all.take(i + 1).last() == ls@[i as int]@);
            assert(all[i as int] == ls@[i as int]@);
            let l: String = trimmed(ls[i].as_str());
            if same(l.as_str(), "# deadman=true") {
                deadman = true;
            }
            let blank: bool = same(l.as_str(), "");
            let comment: bool = begins(l.as_str(), "#");
            proof {
                reveal_strlit("");
                reveal_strlit("#");
                if l@.len() == 0 {
                    assert(l@ =~= ""@);
                } else {
                    assert(l@.subrange(0, 1) == "#"@ <==> l@[0] == '#') by {
                        if l@[0] == '#' {
                            assert(l@.subrange(0, 1) =~= "#"@);
                        } else if l@.subrange(0, 1) == "#"@ {
                            assert(l@.subrange(0, 1)[0] == '#');
                        }
                    }
                }
            }
            if !blank && !comment {
                let ghost before = revert@;
                revert.push(l);
                proof {
                    lemma_texts_push(before, l);
                }
            }
            i += 1;
        }
        assert(all.take(i as int) =~= all);
        Applied { revert, deadman }
    }
}

/// Whether a command can stand in a record: on a line of its own, with nothing
/// around it, and not taken for a comment.
pub open spec fn recordable(c: Seq<char>) -> bool {
    is_line(c) && trim(c) == c && c.len() > 0 && c[0] != '#'
}

proof fn lemma_commands_kept(head: Seq<Seq<char>>, cmds: Seq<Seq<char>>)
    requires
        commands(head).len() == 0,
        forall|i: int| 0 <= i < cmds.len() ==> recordable(#[trigger] cmds[i]),
    ensures
        commands(head + cmds) == cmds,
    decreases cmds.len(),
{
    if cmds.len() == 0 {
        assert(head + cmds =~= head);
        assert(commands(head) =~= cmds);
    } else {
        let t = cmds.drop_last();
        assert forall|i: int| 0 <= i < t.len() implies recordable(#[trigger] t[i]) by {
            assert(t[i] == cmds[i]);
        }
        lemma_commands_kept(head, t);
        assert((head + cmds).drop_last() =~= head + t);
        assert((head + cmds).last() == cmds.last());
        assert(recordable(cmds[cmds.len() - 1]));
        assert(t.push(cmds.last()) =~= cmds);
    }
}

/// A record reads back as what was recorded.
pub proof fn a_record_reads_back(a: AppliedView)
    requires
        forall|i: int| 0 <= i < a.revert.len() ==> recordable(#[trigger] a.revert[i]),
    ensures
        record_of(unlines(record_lines(a))) == a,
{
    reveal_strlit("# throughline: applied. Each line undoes one thing, in order.");
    reveal_strlit("# deadman=");
    reveal_strlit("true");
    reveal_strlit("false");
    reveal_strlit("# deadman=true");
    let ls = record_lines(a);
    let one = "# throughline: applied. Each line undoes one thing, in order."@;
    let two = "# deadman="@ + truth(a.deadman);
    assert(is_line(one));
    assert(is_line(two));
    assert forall|i: int| 0 <= i < ls.len() implies is_line(#[trigger] ls[i]) by {
        if i >= 2 {
            assert(ls[i] == a.revert[i - 2]);
            assert(recordable(a.revert[i - 2]));
        }
    }
    lines_read_back(ls);
    crate::text::lemma_trimmed_stays(one);
    crate::text::lemma_trimmed_stays(two);
    let head = seq![one, two];
    assert(commands(head).len() == 0) by {
        assert(head.drop_last() =~= seq![one]);
        assert(seq![one].drop_last() =~= Seq::<Seq<char>>::empty());
        assert(commands(Seq::<Seq<char>>::empty()).len() == 0);
        assert(commands(seq![one]).len() == 0);
    }
    lemma_commands_kept(head, a.revert);
    assert(ls =~= head + a.revert);
    if a.deadman {
        assert(two =~= "# deadman=true"@);
        assert(trim(ls[1]) == "# deadman=true"@);
    } else if counting(ls) {
        let i = choose|i: int| 0 <= i < ls.len() && trim(#[trigger] ls[i]) == "# deadman=true"@;
        if i == 0 {
            assert(one[2] == 't' && "# deadman=true"@[2] == 'd');
        } else if i == 1 {
            assert(two.len() == 15 && "# deadman=true"@.len() == 14);
        } else {
            assert(recordable(a.revert[i - 2]));
            assert("# deadman=true"@[0] == '#');
        }
    }
}

// ---------------------------------------------------------------------------
// Command lines
// ---------------------------------------------------------------------------

/// What enters a network namespace, where there is one to enter.
///
/// `nsenter --net`, not `ip netns exec`: the latter also remounts `/sys`, which
/// hides the cgroups, and nft resolves every cgroup path when the ruleset
/// loads.
pub open spec fn entry(ns: Option<Seq<char>>) -> Seq<Seq<char>> {
    match ns {
        Some(n) => seq!["nsenter"@, "--net=/var/run/netns/"@ + n],
        None => seq![],
    }
}

/// The words of a command, run where the namespace says.
pub open spec fn argv_of(ns: Option<Seq<char>>, cmd: Seq<char>) -> Seq<Seq<char>> {
    entry(ns) + words(cmd)
}

/// The words of a command, run where the namespace says.
pub fn argv(netns: Option<&str>, cmd: &str) -> (r: Vec<String>)
    ensures
        texts(r@) == argv_of(opt_text(netns), cmd@),
{
    let mut v: Vec<String> = Vec::new();
    if let Some(ns) = netns {
        v.push(String::from_str("nsenter"));
        let mut net: String = String::from_str("--net=/var/run/netns/");
        net.append(ns);
        v.push(net);
    }
    assert(texts(v@) =~= entry(opt_text(netns)));
    let mut more: Vec<String> = words_of(cmd);
    let ghost head = v@;
    let ghost tail = more@;
    v.append(&mut more);
    assert(texts(head + tail) =~= texts(head) + texts(tail));
    v
}

/// Where the record of a run lives: a namespaced run keeps its own.
pub open spec fn state_file(opts: OptionsView) -> Seq<char> {
    match opts.netns {
        Some(ns) => STATE@ + "."@ + ns,
        None => STATE@,
    }
}

/// Where the record of a run lives.
pub fn state_path(opts: &Options) -> (r: String)
    ensures
        r@ == state_file(opts@),
{
    let mut s: String = String::from_str(STATE);
    if let Some(ns) = &opts.netns {
        s.append(".");
        s.append(ns.as_str());
    }
    s
}

/// The unit that holds the revert: a namespaced run has its own.
pub open spec fn unit_of(ns: Option<Seq<char>>) -> Seq<char> {
    match ns {
        Some(n) => DEADMAN_UNIT@ + "-"@ + n,
        None => DEADMAN_UNIT@,
    }
}

/// The unit that holds the revert.
pub fn unit_name(ns: Option<&str>) -> (r: String)
    ensures
        r@ == unit_of(opt_text(ns)),
{
    let mut s: String = String::from_str(DEADMAN_UNIT);
    if let Some(n) = ns {
        s.append("-");
        s.append(n);
    }
    s
}

/// What undoes a plan. Before the ruleset is loaded there is no table to
/// delete.
pub open spec fn undo_list(revert: Seq<Seq<char>>, loaded: bool) -> Seq<Seq<char>> {
    if loaded || revert.len() == 0 {
        revert
    } else {
        revert.skip(1)
    }
}

pub(crate) fn undo_steps(plan: &Plan, loaded: bool) -> (r: Vec<String>)
    ensures
        texts(r@) == undo_list(plan@.revert, loaded),
{
    let mut v: Vec<String> = copies(&plan.revert);
    assert(texts(v@).len() == v@.len());
    if !loaded && v.len() > 0 {
        let ghost before = v@;
        v.remove(0);
        assert(texts(v@) =~= texts(before).skip(1));
    }
    v
}

/// What undoes a plan of whose `ip` steps so many were done. The revert list is
/// the table first, then two entries per lane.
pub fn undo_for(plan: &Plan, ip_steps_done: usize) -> (r: Vec<String>)
    requires
        plan@.revert.len() > 0,
    ensures
        texts(r@) == undo_list(plan@.revert, ip_steps_done >= plan@.ip.len()),
{
    assert(plan@.ip.len() == plan.ip@.len());
    undo_steps(plan, ip_steps_done >= plan.ip.len())
}

/// The command that hands a revert to systemd, on a timer.
///
/// The revert has to run in the network namespace the policy was applied to,
/// and systemd runs it from its own.
pub open spec fn arm_argv(ns: Option<Seq<char>>, revert: Seq<Seq<char>>, secs: u32) -> Seq<
    Seq<char>,
> {
    seq![
        "systemd-run"@,
        "--unit="@ + unit_of(ns),
        "--on-active="@ + dec(secs as nat) + "s"@,
        "--timer-property=AccuracySec=1s"@,
        "--description=Throughline: undo the routing policy unless confirmed"@,
    ] + (match ns {
        Some(n) => seq!["/usr/bin/nsenter"@, "--net=/var/run/netns/"@ + n],
        None => seq![],
    }) + seq!["/bin/sh"@, "-c"@, join(revert, "; "@)]
}

pub(crate) fn arm_command(ns: Option<&str>, revert: &Vec<String>, secs: u32) -> (r: Vec<String>)
    ensures
        texts(r@) == arm_argv(opt_text(ns), texts(revert@), secs),
{
    let mut v: Vec<String> = Vec::new();
    v.push(String::from_str("systemd-run"));
    let mut unit: String = String::from_str("--unit=");
    unit.append(unit_name(ns).as_str());
    v.push(unit);
    let mut after: String = String::from_str("--on-active=");
    push_dec(&mut after, secs as u64);
    after.append("s");
    v.push(after);
    v.push(String::from_str("--timer-property=AccuracySec=1s"));
    v.push(
        String::from_str("--description=Throughline: undo the routing policy unless confirmed"),
    );
    if let Some(n) = ns {
        v.push(String::from_str("/usr/bin/nsenter"));
        let mut net: String = String::from_str("--net=/var/run/netns/");
        net.append(n);
        v.push(net);
    }
    v.push(String::from_str("/bin/sh"));
    v.push(String::from_str("-c"));
    v.push(joined(revert, "; "));
    assert(texts(v@) =~= arm_argv(opt_text(ns), texts(revert@), secs));
    v
}

/// The command that opens a new connection, from a child so that it can be
/// placed in the right network namespace.
pub open spec fn dial_argv(ns: Option<Seq<char>>, target: Seq<char>) -> Seq<Seq<char>> {
    entry(ns) + seq![
        "timeout"@,
        "6"@,
        "bash"@,
        "-c"@,
        "exec 3<>/dev/tcp/"@ + replace_char(target, ':', "/"@),
    ]
}

pub(crate) fn dial_command(ns: Option<&str>, target: &str) -> (r: Vec<String>)
    ensures
        texts(r@) == dial_argv(opt_text(ns), target@),
{
    let mut v: Vec<String> = Vec::new();
    if let Some(n) = ns {
        v.push(String::from_str("nsenter"));
        let mut net: String = String::from_str("--net=/var/run/netns/");
        net.append(n);
        v.push(net);
    }
    v.push(String::from_str("timeout"));
    v.push(String::from_str("6"));
    v.push(String::from_str("bash"));
    v.push(String::from_str("-c"));
    let mut script: String = String::from_str("exec 3<>/dev/tcp/");
    script.append(replaced_char(target, ':', "/").as_str());
    v.push(script);
    assert(texts(v@) =~= dial_argv(opt_text(ns), target@));
    v
}

/// What a rehearsal shows: every command that would run, and the ruleset that
/// would be loaded.
pub open spec fn rehearsal_lines(plan: PlanView, ns: Option<Seq<char>>) -> Seq<Seq<char>> {
    Seq::new(plan.ip.len(), |i: int| join(argv_of(ns, plan.ip[i]), " "@)).push(
        join(argv_of(ns, ""@), " "@) + " nft -f - <<'RULES'\n"@ + plan.nft + "RULES"@,
    )
}

pub(crate) fn rehearsal(plan: &Plan, ns: Option<&str>) -> (r: String)
    ensures
        r@ == unlines(rehearsal_lines(plan@, opt_text(ns))),
{
    let mut out: Vec<String> = Vec::new();
    let ghost all = rehearsal_lines(plan@, opt_text(ns));
    let mut i: usize = 0;
    assert(texts(out@) =~= all.take(0));
    while i < plan.ip.len()
        invariant
            i <= plan.ip@.len(),
            all == rehearsal_lines(plan@, opt_text(ns)),
            texts(out@) == all.take(i as int),
        decreases plan.ip@.len() - i,
    {
        let ghost before = out@;
        let s: String = joined(&argv(ns, plan.ip[i].as_str()), " ");
        out.push(s);
        proof {
            lemma_texts_push(before, s);
            assert(plan@.ip[i as int] == plan.ip@[i as int]@);
            assert(texts(out@) =~= all.take(i + 1));
        }
        i += 1;
    }
    let ghost before = out@;
    let mut s: String = joined(&argv(ns, ""), " ");
    s.append(" nft -f - <<'RULES'\n");
    s.append(plan.nft.as_str());
    s.append("RULES");
    out.push(s);
    proof {
        lemma_texts_push(before, s);
        assert(texts(out@) =~= all);
    }
    with_line_feeds(&out)
}

// ---------------------------------------------------------------------------
// What the machine says
// ---------------------------------------------------------------------------

/// What the machine says is applied, as opposed to what was planned.
#[derive(Debug, Clone, Copy, PartialEq, Eq, Structural)]
pub struct Status {
    /// A record exists.
    pub recorded: bool,
    /// The nftables table is present.
    pub table_present: bool,
    /// Every ip rule the record expects is present.
    pub rules_present: bool,
    /// A dead-man switch is still counting down.
    pub deadman_armed: bool,
}

impl Status {
    pub open spec fn sentence(self) -> Seq<char> {
        match (self.recorded, self.table_present, self.rules_present) {
            (false, false, false) => "nothing applied"@,
            (true, true, true) => if self.deadman_armed {
                "applied, and reverting shortly unless confirmed"@
            } else {
                "applied and confirmed"@
            },
            (true, false, true) =>
            "HALF APPLIED: the routing is in place but the ruleset is gone. Something flushed nftables — /etc/nftables.conf begins with `flush ruleset` on many hosts, so a reload of the baseline firewall does exactly this. Traffic is taking the ordinary route."@,
            (true, true, false) =>
            "HALF APPLIED: the ruleset is marking packets but the routing rules are gone, so the marks lead nowhere."@,
            (false, _, _) =>
            "SOMETHING IS APPLIED THAT NOTHING RECORDED. Another tool, or a run whose record was lost."@,
            (true, false, false) =>
            "a record exists but nothing is applied; it was probably reverted by hand."@,
        }
    }

    /// A sentence naming which of the states this actually is.
    pub fn describe(&self) -> (r: String)
        ensures
            r@ == self.sentence(),
    {
        match (self.recorded, self.table_present, self.rules_present) {
            (false, false, false) => String::from_str("nothing applied"),
            (true, true, true) => {
                if self.deadman_armed {
                    String::from_str("applied, and reverting shortly unless confirmed")
                } else {
                    String::from_str("applied and confirmed")
                }
            },
            (true, false, true) => String::from_str(
                "HALF APPLIED: the routing is in place but the ruleset is gone. Something flushed nftables — /etc/nftables.conf begins with `flush ruleset` on many hosts, so a reload of the baseline firewall does exactly this. Traffic is taking the ordinary route.",
            ),
            (true, true, false) => String::from_str(
                "HALF APPLIED: the ruleset is marking packets but the routing rules are gone, so the marks lead nowhere.",
            ),
            (false, _, _) => String::from_str(
                "SOMETHING IS APPLIED THAT NOTHING RECORDED. Another tool, or a run whose record was lost.",
            ),
            (true, false, false) => String::from_str(
                "a record exists but nothing is applied; it was probably reverted by hand.",
            ),
        }
    }
}

/// Whether one of the lines holds a text.
pub open spec fn any_line_holds(ls: Seq<Seq<char>>, p: Seq<char>) -> bool {
    exists|i: int| 0 <= i < ls.len() && contains(#[trigger] ls[i], p)
}

/// Whether an undo step deletes a routing rule.
pub open spec fn deletes_rule(c: Seq<char>) -> bool {
    starts_with(c, "ip rule del"@)
}

/// Whether two words spell one mark, with `0x` in front or without.
pub open spec fn same_mark(a: Seq<char>, b: Seq<char>) -> bool {
    trim_start_str(a, "0x"@) == trim_start_str(b, "0x"@)
}

/// Whether word `k` of a line is the mark behind `fwmark`, and this one.
pub open spec fn marks_at(line: Seq<char>, mark: Seq<char>, k: int) -> bool {
    0 < k < words(line).len() && words(line)[k - 1] == "fwmark"@ && same_mark(words(line)[k], mark)
}

/// Whether a line of `ip rule show` is about a mark.
pub open spec fn line_marks(line: Seq<char>, mark: Seq<char>) -> bool {
    exists|k: int| #[trigger] marks_at(line, mark, k)
}

/// Whether one of the lines is.
pub open spec fn any_line_marks(ls: Seq<Seq<char>>, mark: Seq<char>) -> bool {
    exists|i: int| 0 <= i < ls.len() && line_marks(#[trigger] ls[i], mark)
}

/// Whether the rule that an undo step deletes is among those shown, by its
/// mark.
pub open spec fn rule_shown(c: Seq<char>, shown: Seq<char>) -> bool {
    words(c).len() > 4 && any_line_marks(lines(shown), words(c)[4])
}

/// Whether every routing rule that the record expects is shown.
pub open spec fn rules_shown(revert: Seq<Seq<char>>, shown: Seq<char>) -> bool {
    forall|i: int|
        0 <= i < revert.len() && deletes_rule(#[trigger] revert[i]) ==> rule_shown(
            revert[i],
            shown,
        )
}

/// A text, empty where there is none.
pub open spec fn or_nothing(o: Option<Seq<char>>) -> Seq<char> {
    match o {
        Some(t) => t,
        None => ""@,
    }
}

/// What the record, the tables, the rules and the timer amount to. Where there
/// is no record, no rule is expected and none is present.
pub open spec fn status_of(
    record: Option<Seq<char>>,
    tables: Option<Seq<char>>,
    rules: Option<Seq<char>>,
    timer: Option<Seq<char>>,
) -> Status {
    Status {
        recorded: trim(or_nothing(record)).len() > 0,
        table_present: tables matches Some(t) && any_line_holds(lines(t), "inet "@ + TABLE@),
        rules_present: trim(or_nothing(record)).len() > 0 && rules_shown(
            record_of(or_nothing(record)).revert,
            or_nothing(rules),
        ),
        deadman_armed: timer matches Some(t) && trim(t) == "active"@,
    }
}

fn some_line_holds(text: &str, p: &str) -> (r: bool)
    ensures
        r == any_line_holds(lines(text@), p@),
{
    let ls: Vec<String> = lines_of(text);
    let mut i: usize = 0;
    while i < ls.len()
        invariant
            i <= ls@.len(),
            texts(ls@) == lines(text@),
            forall|k: int| 0 <= k < i ==> !contains(#[trigger] lines(text@)[k], p@),
        decreases ls@.len() - i,
    {
        assert(lines(text@)[i as int] == ls@[i as int]@);
        if holds(ls[i].as_str(), p) {
            return true;
        }
        i += 1;
    }
    assert(lines(text@).len() == ls@.len());
    false
}

fn line_shows_mark(line: &str, mark: &str) -> (r: bool)
    ensures
        r == line_marks(line@, mark@),
{
    let w: Vec<String> = words_of(line);
    let wanted: String = trimmed_start_str(mark, "0x");
    assert(texts(w@).len() == w@.len());
    let mut k: usize = 1;
    while k < w.len()
        invariant
            1 <= k,
            texts(w@) == words(line@),
            texts(w@).len() == w@.len(),
            wanted@ == trim_start_str(mark@, "0x"@),
            forall|j: int| 0 < j < k ==> !(#[trigger] marks_at(line@, mark@, j)),
        decreases w@.len() - k,
    {
        assert(words(line@)[k - 1] == w@[k - 1]@ && words(line@)[k as int] == w@[k as int]@);
        if same(w[k - 1].as_str(), "fwmark") {
            let here: String = trimmed_start_str(w[k].as_str(), "0x");
            if same(here.as_str(), wanted.as_str()) {
                assert(marks_at(line@, mark@, k as int));
                return true;
            }
        }
        k += 1;
    }
    false
}

fn some_line_shows_mark(text: &str, mark: &str) -> (r: bool)
    ensures
        r == any_line_marks(lines(text@), mark@),
{
    let ls: Vec<String> = lines_of(text);
    let mut i: usize = 0;
    assert(lines(text@).len() == ls@.len());
    while i < ls.len()
        invariant
            i <= ls@.len(),
            texts(ls@) == lines(text@),
            forall|k: int| 0 <= k < i ==> !line_marks(#[trigger] lines(text@)[k], mark@),
        decreases ls@.len() - i,
    {
        assert(lines(text@)[i as int] == ls@[i as int]@);
        if line_shows_mark(ls[i].as_str(), mark) {
            return true;
        }
        i += 1;
    }
    assert(lines(text@).len() == ls@.len());
    false
}

fn shows_rule(c: &str, shown: &str) -> (r: bool)
    ensures
        r == rule_shown(c@, shown@),
{
    let w: Vec<String> = words_of(c);
    assert(texts(w@).len() == w@.len());
    if w.len() <= 4 {
        return false;
    }
    assert(texts(w@)[4] == w@[4]@);
    some_line_shows_mark(shown, w[4].as_str())
}

fn shows_rules(revert: &Vec<String>, shown: &str) -> (r: bool)
    ensures
        r == rules_shown(texts(revert@), shown@),
{
    let ghost all = texts(revert@);
    let mut i: usize = 0;
    while i < revert.len()
        invariant
            i <= revert@.len(),
            all == texts(revert@),
            forall|k: int|
                0 <= k < i && deletes_rule(#[trigger] all[k]) ==> rule_shown(all[k], shown@),
        decreases revert@.len() - i,
    {
        assert(all[i as int] == revert@[i as int]@);
        if begins(revert[i].as_str(), "ip rule del") {
            if !shows_rule(revert[i].as_str(), shown) {
                assert(deletes_rule(all[i as int]));
                return false;
            }
        }
        i += 1;
    }
    true
}

/// Compare the record against the kernel: the text of the record, what
/// `nft list tables` and `ip rule show` said, and what systemd said of the
/// timer. `None` stands for what could not be had.
pub fn status(
    record: Option<&str>,
    tables: Option<&str>,
    rules: Option<&str>,
    timer: Option<&str>,
) -> (r: Status)
    ensures
        r == status_of(opt_text(record), opt_text(tables), opt_text(rules), opt_text(timer)),
{
    let text: &str = match record {
        Some(t) => t,
        None => "",
    };
    let shown: &str = match rules {
        Some(t) => t,
        None => "",
    };
    let body: String = trimmed(text);
    let recorded: bool = !same(body.as_str(), "");
    proof {
        reveal_strlit("");
        if body@.len() == 0 {
            assert(body@ =~= ""@);
        }
    }
    let applied: Applied = Applied::parse(text);
    let mut name: String = String::from_str("inet ");
    name.append(TABLE);
    let table_present: bool = match tables {
        Some(t) => some_line_holds(t, name.as_str()),
        None => false,
    };
    let rules_present: bool = recorded && shows_rules(&applied.revert, shown);
    let deadman_armed: bool = match timer {
        Some(t) => same(trimmed(t).as_str(), "active"),
        None => false,
    };
    Status { recorded, table_present, rules_present, deadman_armed }
}

/// Whether a line of a baseline firewall wipes what is loaded.
pub open spec fn flushes(line: Seq<char>) -> bool {
    starts_with(trim(line), "flush ruleset"@) || starts_with(trim(line), "flush table"@)
}

/// Whether one of the lines does.
pub open spec fn any_flushes(ls: Seq<Seq<char>>) -> bool {
    exists|i: int| 0 <= i < ls.len() && flushes(#[trigger] ls[i])
}

/// Whether this host's baseline firewall, by the text of its configuration,
/// would wipe the policy on reload. `None` stands for a file that could not be
/// read.
///
/// Many distributions ship `/etc/nftables.conf` beginning with
/// `flush ruleset`, so a reload deletes the table while the ip rules and
/// routing tables survive untouched.
pub fn baseline_flushes(conf: Option<&str>) -> (r: bool)
    ensures
        r == (match opt_text(conf) {
            Some(t) => any_flushes(lines(t)),
            None => false,
        }),
{
    let text: &str = match conf {
        Some(t) => t,
        None => {
            return false;
        },
    };
    let ls: Vec<String> = lines_of(text);
    let mut i: usize = 0;
    while i < ls.len()
        invariant
            i <= ls@.len(),
            texts(ls@) == lines(text@),
            opt_text(conf) == Some(text@),
            forall|k: int| 0 <= k < i ==> !flushes(#[trigger] lines(text@)[k]),
        decreases ls@.len() - i,
    {
        assert(lines(text@)[i as int] == ls@[i as int]@);
        let l: String = trimmed(ls[i].as_str());
        if begins(l.as_str(), "flush ruleset") || begins(l.as_str(), "flush table") {
            assert(lines(text@).len() == ls@.len());
            assert(flushes(lines(text@)[i as int]));
            return true;
        }
        i += 1;
    }
    assert(lines(text@).len() == ls@.len());
    false
}

/// The states in which a plan and a kernel disagree each have a name of their
/// own, and none is taken for one in which they agree.
pub proof fn every_disagreement_is_told_apart(s: Status)
    ensures
        s.sentence() == "nothing applied"@ <==> !s.recorded && !s.table_present
            && !s.rules_present,
        s.sentence() == "applied and confirmed"@ <==> s.recorded && s.table_present
            && s.rules_present && !s.deadman_armed,
        s.sentence() == "applied, and reverting shortly unless confirmed"@ <==> s.recorded
            && s.table_present && s.rules_present && s.deadman_armed,
{
    reveal_strlit("nothing applied");
    reveal_strlit("applied, and reverting shortly unless confirmed");
    reveal_strlit("applied and confirmed");
    reveal_strlit(
        "HALF APPLIED: the ruleset is marking packets but the routing rules are gone, so the marks lead nowhere.",
    );
    reveal_strlit(
        "SOMETHING IS APPLIED THAT NOTHING RECORDED. Another tool, or a run whose record was lost.",
    );
    reveal_strlit("a record exists but nothing is applied; it was probably reverted by hand.");
    reveal_strlit(
        "HALF APPLIED: the routing is in place but the ruleset is gone. Something flushed nftables — /etc/nftables.conf begins with `flush ruleset` on many hosts, so a reload of the baseline firewall does exactly this. Traffic is taking the ordinary route.",
    );
    let t = s.sentence();
    assert("nothing applied"@[0] == 'n' && "nothing applied"@.len() == 15);
    assert("applied and confirmed"@[7] == ' ');
    assert("applied, and reverting shortly unless confirmed"@[7] == ',');
    assert("applied and confirmed"@[0] == 'a' && "applied and confirmed"@[1] == 'p');
    assert("applied, and reverting shortly unless confirmed"@[1] == 'p');
}

/// Whether a line of what `ip rule show` prints tells of a mark: somewhere in it
/// stands the word `fwmark`, and behind it the mark, with `0x` in front or
/// without.
pub open spec fn tells_of(line: Seq<char>, mark: Seq<char>) -> bool {
    exists|k: int|
        0 < k < words(line).len() && words(line)[k - 1] == "fwmark"@ && trim_start_str(
            #[trigger] words(line)[k],
            "0x"@,
        ) == trim_start_str(mark, "0x"@)
}

/// Whether what `ip rule show` prints tells of a mark.
pub open spec fn printed(shown: Seq<char>, mark: Seq<char>) -> bool {
    exists|j: int| 0 <= j < lines(shown).len() && tells_of(#[trigger] lines(shown)[j], mark)
}

proof fn lemma_printed(shown: Seq<char>, mark: Seq<char>)
    ensures
        printed(shown, mark) <==> any_line_marks(lines(shown), mark),
{
    let ls = lines(shown);
    assert forall|j: int| 0 <= j < ls.len() implies tells_of(#[trigger] ls[j], mark) == line_marks(
        ls[j],
        mark,
    ) by {
        let w = words(ls[j]);
        if tells_of(ls[j], mark) {
            let k = choose|k: int|
                0 < k < w.len() && w[k - 1] == "fwmark"@ && trim_start_str(#[trigger] w[k], "0x"@)
                    == trim_start_str(mark, "0x"@);
            assert(marks_at(ls[j], mark, k));
        }
        if line_marks(ls[j], mark) {
            let k = choose|k: int| #[trigger] marks_at(ls[j], mark, k);
            assert(trim_start_str(w[k], "0x"@) == trim_start_str(mark, "0x"@));
        }
    }
    if printed(shown, mark) {
        let j = choose|j: int| 0 <= j < ls.len() && tells_of(#[trigger] ls[j], mark);
        assert(line_marks(ls[j], mark));
    }
    if any_line_marks(ls, mark) {
        let j = choose|j: int| 0 <= j < ls.len() && line_marks(#[trigger] ls[j], mark);
        assert(tells_of(ls[j], mark));
    }
}

/// The status of a machine, by a record and by what `ip rule show` prints.
pub open spec fn standing(a: AppliedView, tables: Seq<char>, shown: Seq<char>, timer: Seq<char>) -> Status {
    status_of(Some(unlines(record_lines(a))), Some(tables), Some(shown), Some(timer))
}

pub open spec fn all_recordable(a: AppliedView) -> bool {
    forall|i: int| 0 <= i < a.revert.len() ==> recordable(#[trigger] a.revert[i])
}

proof fn lemma_record_is_something(a: AppliedView)
    ensures
        trim(unlines(record_lines(a))).len() > 0,
{
    let t = unlines(record_lines(a));
    let one = "# throughline: applied. Each line undoes one thing, in order."@;
    reveal_strlit("# throughline: applied. Each line undoes one thing, in order.");
    crate::text::lemma_unlines_front(record_lines(a));
    assert(t[0] == '#');
    something_is_left_of_a_text(t, 0);
}

/// A text is trimmed away exactly where there is nothing but white space in it.
pub proof fn something_is_left_of_a_text(s: Seq<char>, i: int)
    requires
        0 <= i < s.len(),
        !crate::text::is_whitespace(s[i]),
    ensures
        trim(s).len() > 0,
{
    lemma_trim_start_keeps(s, i);
    let t = crate::text::trim_start(s);
    lemma_trim_end_keeps(t, i - (s.len() - t.len()));
}

proof fn lemma_trim_start_keeps(s: Seq<char>, i: int)
    requires
        0 <= i < s.len(),
        !crate::text::is_whitespace(s[i]),
    ensures
        ({
            let t = crate::text::trim_start(s);
            let d = s.len() - t.len();
            0 <= d <= i && t[i - d] == s[i]
        }),
    decreases s.len(),
{
    if crate::text::is_whitespace(s[0]) {
        assert(s.skip(1)[i - 1] == s[i]);
        lemma_trim_start_keeps(s.skip(1), i - 1);
    }
}

proof fn lemma_trim_end_keeps(s: Seq<char>, i: int)
    requires
        0 <= i < s.len(),
        !crate::text::is_whitespace(s[i]),
    ensures
        crate::text::trim_end(s).len() > i,
    decreases s.len(),
{
    if crate::text::is_whitespace(s.last()) {
        assert(s.drop_last()[i] == s[i]);
        lemma_trim_end_keeps(s.drop_last(), i);
    }
}

/// One expected rule whose mark is not printed is enough: however many others
/// are there, the rules are not.
pub proof fn one_missing_rule_is_enough(
    a: AppliedView,
    tables: Seq<char>,
    shown: Seq<char>,
    timer: Seq<char>,
    i: int,
)
    requires
        all_recordable(a),
        0 <= i < a.revert.len(),
        words(a.revert[i]).len() > 4 ==> !printed(shown, words(a.revert[i])[4]),
        a.revert[i].len() >= 11,
        a.revert[i].take(11) == "ip rule del"@,
    ensures
        !standing(a, tables, shown, timer).rules_present,
        standing(a, tables, shown, timer).sentence() != "applied and confirmed"@,
        standing(a, tables, shown, timer).sentence()
            != "applied, and reverting shortly unless confirmed"@,
{
    a_record_reads_back(a);
    let c = a.revert[i];
    reveal_strlit("ip rule del");
    assert(c.subrange(0, 11) =~= c.take(11));
    assert(deletes_rule(c));
    if words(c).len() > 4 {
        lemma_printed(shown, words(c)[4]);
    }
    assert(!rule_shown(c, shown));
    every_disagreement_is_told_apart(standing(a, tables, shown, timer));
}

/// The rules are present where every expected one is printed, and an undo step
/// that deletes no rule expects none.
pub proof fn the_rules_are_there_where_each_is_printed(
    a: AppliedView,
    tables: Seq<char>,
    shown: Seq<char>,
    timer: Seq<char>,
)
    requires
        all_recordable(a),
        forall|i: int|
            0 <= i < a.revert.len() && a.revert[i].len() >= 11 && (#[trigger] a.revert[i]).take(11)
                == "ip rule del"@ ==> words(a.revert[i]).len() > 4 && printed(
                shown,
                words(a.revert[i])[4],
            ),
    ensures
        standing(a, tables, shown, timer).recorded,
        standing(a, tables, shown, timer).rules_present,
{
    a_record_reads_back(a);
    lemma_record_is_something(a);
    reveal_strlit("ip rule del");
    assert forall|i: int| 0 <= i < a.revert.len() && deletes_rule(#[trigger] a.revert[i]) implies rule_shown(
        a.revert[i],
        shown,
    ) by {
        let c = a.revert[i];
        assert(c.subrange(0, 11) =~= c.take(11));
        lemma_printed(shown, words(c)[4]);
    }
}

/// A record of two parts is there exactly where both parts are.
pub proof fn a_record_is_there_where_its_parts_are(
    one: Seq<Seq<char>>,
    two: Seq<Seq<char>>,
    tables: Seq<char>,
    shown: Seq<char>,
    timer: Seq<char>,
)
    requires
        all_recordable(AppliedView { revert: one + two, deadman: false }),
    ensures
        ({
            let first = AppliedView { revert: one, deadman: false };
            let second = AppliedView { revert: two, deadman: false };
            let both = AppliedView { revert: one + two, deadman: false };
            standing(both, tables, shown, timer).rules_present <==> standing(
                first,
                tables,
                shown,
                timer,
            ).rules_present && standing(second, tables, shown, timer).rules_present
        }),
{
    let first = AppliedView { revert: one, deadman: false };
    let second = AppliedView { revert: two, deadman: false };
    let all = one + two;
    let both = AppliedView { revert: all, deadman: false };
    assert forall|i: int| 0 <= i < one.len() implies recordable(#[trigger] one[i]) by {
        assert(both.revert[i] == one[i]);
    }
    assert forall|i: int| 0 <= i < two.len() implies recordable(#[trigger] two[i]) by {
        assert(both.revert[one.len() + i] == two[i]);
    }
    a_record_reads_back(first);
    a_record_reads_back(second);
    a_record_reads_back(both);
    lemma_record_is_something(first);
    lemma_record_is_something(second);
    lemma_record_is_something(both);
    if rules_shown(all, shown) {
        assert forall|i: int| 0 <= i < one.len() && deletes_rule(#[trigger] one[i]) implies rule_shown(
            one[i],
            shown,
        ) by {
            assert(all[i] == one[i]);
        }
        assert forall|i: int| 0 <= i < two.len() && deletes_rule(#[trigger] two[i]) implies rule_shown(
            two[i],
            shown,
        ) by {
            assert(all[one.len() + i] == two[i]);
        }
    }
    if rules_shown(one, shown) && rules_shown(two, shown) {
        assert forall|i: int| 0 <= i < all.len() && deletes_rule(#[trigger] all[i]) implies rule_shown(
            all[i],
            shown,
        ) by {
            if i < one.len() {
                assert(all[i] == one[i]);
            } else {
                assert(all[i] == two[i - one.len()]);
            }
        }
    }
}

/// Whether the name of our table stands in a line, at a position.
pub open spec fn names_our_table(line: Seq<char>, j: int) -> bool {
    0 <= j && j + 16 <= line.len() && line.subrange(j, j + 16) == "inet throughline"@
}

/// What the machine says of the table and of the timer is taken for what it is:
/// the table is there where it is listed by its name, and the switch counts where
/// the timer is active. Without a record, no rule is expected.
pub proof fn the_table_and_the_switch_are_as_listed(
    record: Option<Seq<char>>,
    tables: Option<Seq<char>>,
    rules: Option<Seq<char>>,
    timer: Option<Seq<char>>,
)
    ensures
        ({
            let s = status_of(record, tables, rules, timer);
            &&& s.table_present <==> tables is Some && exists|i: int, j: int|
                0 <= i < lines(tables->0).len() && #[trigger] names_our_table(
                    lines(tables->0)[i],
                    j,
                )
            &&& s.deadman_armed <==> timer is Some && trim(timer->0) == "active"@
            &&& !s.recorded ==> !s.rules_present
            &&& record is None ==> !s.recorded
            &&& tables is None ==> !s.table_present
            &&& timer is None ==> !s.deadman_armed
        }),
{
    let s = status_of(record, tables, rules, timer);
    reveal_strlit("");
    reveal_strlit("inet ");
    reveal_strlit("throughline");
    reveal_strlit("inet throughline");
    let name = "inet "@ + TABLE@;
    assert(name =~= "inet throughline"@);
    if let Some(t) = tables {
        let ls = lines(t);
        if s.table_present {
            let i = choose|i: int| 0 <= i < ls.len() && contains(#[trigger] ls[i], name);
            let j = choose|j: int| crate::text::has_at(ls[i], name, j);
            assert(ls[i].subrange(j, j + 16) == name);
            assert(names_our_table(ls[i], j));
        }
        if exists|i: int, j: int| 0 <= i < ls.len() && #[trigger] names_our_table(ls[i], j) {
            let (i, j) = choose|i: int, j: int|
                0 <= i < ls.len() && #[trigger] names_our_table(ls[i], j);
            assert(crate::text::has_at(ls[i], name, j));
            assert(contains(ls[i], name));
        }
    }
    assert(""@ =~= seq![]);
    assert(trim(seq![]) =~= seq![]);
}

/// A record is one where something is written in it.
pub proof fn a_record_is_one_where_something_is_written(
    text: Seq<char>,
    tables: Option<Seq<char>>,
    rules: Option<Seq<char>>,
    timer: Option<Seq<char>>,
    i: int,
)
    requires
        0 <= i < text.len(),
        !crate::text::is_whitespace(text[i]),
    ensures
        status_of(Some(text), tables, rules, timer).recorded,
{
    something_is_left_of_a_text(text, i);
}

/// Each way in which a plan and a kernel disagree has its own sentence.
pub proof fn each_disagreement_has_its_own_name(s: Status)
    ensures
        (s.sentence().len() > 12 && s.sentence().take(12) == "HALF APPLIED"@) <==> s.recorded
            && s.table_present != s.rules_present,
        (s.sentence().len() > 9 && s.sentence().take(9) == "SOMETHING"@) <==> !s.recorded && (
        s.table_present || s.rules_present),
        (s.sentence().len() > 8 && s.sentence().take(8) == "a record"@) <==> s.recorded
            && !s.table_present && !s.rules_present,
        s.recorded && s.table_present && !s.rules_present ==> s.sentence().take(28)
            == "HALF APPLIED: the ruleset is"@,
        s.recorded && !s.table_present && s.rules_present ==> s.sentence().take(28)
            == "HALF APPLIED: the routing is"@,
{
    reveal_strlit("HALF APPLIED: the ruleset is");
    reveal_strlit("HALF APPLIED: the routing is");
    reveal_strlit("HALF APPLIED");
    reveal_strlit("SOMETHING");
    reveal_strlit("a record");
    reveal_strlit("nothing applied");
    reveal_strlit("applied, and reverting shortly unless confirmed");
    reveal_strlit("applied and confirmed");
    reveal_strlit(
        "HALF APPLIED: the ruleset is marking packets but the routing rules are gone, so the marks lead nowhere.",
    );
    reveal_strlit(
        "SOMETHING IS APPLIED THAT NOTHING RECORDED. Another tool, or a run whose record was lost.",
    );
    reveal_strlit("a record exists but nothing is applied; it was probably reverted by hand.");
    reveal_strlit(
        "HALF APPLIED: the routing is in place but the ruleset is gone. Something flushed nftables — /etc/nftables.conf begins with `flush ruleset` on many hosts, so a reload of the baseline firewall does exactly this. Traffic is taking the ordinary route.",
    );
    let t = s.sentence();
    assert("HALF APPLIED"@[0] == 'H' && "SOMETHING"@[0] == 'S' && "a record"@[1] == ' ');
    assert(t.len() > 12);
    assert(t.take(12)[0] == t[0] && t.take(9)[0] == t[0] && t.take(8)[1] == t[1]);
    if s.recorded && s.table_present != s.rules_present {
        assert(t.take(12) =~= "HALF APPLIED"@);
        if s.table_present {
            assert(t.take(28) =~= "HALF APPLIED: the ruleset is"@);
        } else {
            assert(t.take(28) =~= "HALF APPLIED: the routing is"@);
        }
    } else if !s.recorded && (s.table_present || s.rules_present) {
        assert(t.take(9) =~= "SOMETHING"@);
    } else if s.recorded && !s.table_present && !s.rules_present {
        assert(t.take(8) =~= "a record"@);
    }
}

/// A firewall's configuration flushes where one of its lines does, however far
/// that line is indented and whatever follows; a comment never does.
pub proof fn a_flush_is_found_on_any_line(ls: Seq<Seq<char>>, i: int, rest: Seq<char>)
    requires
        0 <= i < ls.len(),
    ensures
        trim(ls[i]) == "flush ruleset"@ + rest ==> any_flushes(ls),
        trim(ls[i]) == "flush table"@ + rest ==> any_flushes(ls),
        any_flushes(ls) <==> any_flushes(ls.take(i)) || flushes(ls[i]) || any_flushes(
            ls.skip(i + 1),
        ),
        trim(ls[i]).len() > 0 && trim(ls[i])[0] == '#' ==> !flushes(ls[i]),
{
    reveal_strlit("flush ruleset");
    reveal_strlit("flush table");
    let t = trim(ls[i]);
    if t == "flush ruleset"@ + rest {
        assert(t.subrange(0, 13) =~= "flush ruleset"@);
        assert(flushes(ls[i]));
    }
    if t == "flush table"@ + rest {
        assert(t.subrange(0, 11) =~= "flush table"@);
        assert(flushes(ls[i]));
    }
    if t.len() > 0 && t[0] == '#' && flushes(ls[i]) {
        if starts_with(t, "flush ruleset"@) {
            assert(t.subrange(0, 13)[0] == 'f');
        } else {
            assert(t.subrange(0, 11)[0] == 'f');
        }
    }
    if any_flushes(ls) {
        let k = choose|k: int| 0 <= k < ls.len() && flushes(#[trigger] ls[k]);
        if k < i {
            assert(ls.take(i)[k] == ls[k]);
        } else if k > i {
            assert(ls.skip(i + 1)[k - i - 1] == ls[k]);
        }
    }
    if any_flushes(ls.take(i)) {
        let k = choose|k: int| 0 <= k < i && flushes(#[trigger] ls.take(i)[k]);
        assert(flushes(ls[k]));
    }
    if any_flushes(ls.skip(i + 1)) {
        let k = choose|k: int|
            0 <= k < ls.skip(i + 1).len() && flushes(#[trigger] ls.skip(i + 1)[k]);
        assert(flushes(ls[i + 1 + k]));
    }
}

/// Once the ruleset is loaded everything is undone, the table first; before that
/// everything but the table is. Nothing is undone twice or out of order.
pub proof fn everything_is_undone_that_was_done(revert: Seq<Seq<char>>, i: int)
    requires
        0 <= i < revert.len(),
    ensures
        undo_list(revert, true) == revert,
        undo_list(revert, false).len() == revert.len() - 1,
        i > 0 ==> undo_list(revert, false)[i - 1] == revert[i],
{
}

/// A command that is run in a namespace is the same command, behind what enters
/// that namespace; elsewhere it is run as it is.
pub proof fn a_namespace_only_adds_its_entry(v: Seq<Seq<char>>, ns: Seq<char>)
    requires
        forall|i: int| 0 <= i < v.len() ==> crate::text::is_word(#[trigger] v[i]),
    ensures
        argv_of(None, join(v, seq![' '])) == v,
        argv_of(Some(ns), join(v, seq![' '])) == seq!["nsenter"@, "--net=/var/run/netns/"@ + ns]
            + v,
{
    crate::text::words_read_back(v);
    assert(argv_of(None, join(v, seq![' '])) =~= v);
}

/// The switch runs every command of the revert, in order, and each of them is
/// behind the one before it, whatever came of that; in a namespace all of them
/// run there.
pub proof fn the_switch_runs_the_whole_revert(
    ns: Option<Seq<char>>,
    revert: Seq<Seq<char>>,
    secs: u32,
)
    requires
        revert.len() > 0,
        forall|k: int, i: int|
            0 <= k < revert.len() && 0 <= i < revert[k].len() ==> #[trigger] revert[k][i] != ';',
    ensures
        ({
            let v = arm_argv(ns, revert, secs);
            let n = v.len();
            let parts = crate::text::split(v.last(), ';');
            &&& v[0] == "systemd-run"@
            &&& v.contains("--on-active="@ + dec(secs as nat) + "s"@)
            &&& v[n - 3] == "/bin/sh"@ && v[n - 2] == "-c"@
            &&& ns matches Some(name) ==> v[n - 4] == "--net=/var/run/netns/"@ + name && v[n - 5]
                == "/usr/bin/nsenter"@
            &&& parts.len() == revert.len()
            &&& parts[0] == revert[0]
            &&& forall|k: int|
                0 < k < revert.len() ==> #[trigger] parts[k] == seq![' '] + revert[k]
        }),
{
    let v = arm_argv(ns, revert, secs);
    let spaced = Seq::new(
        revert.len(),
        |k: int|
            if k == 0 {
                revert[0]
            } else {
                seq![' '] + revert[k]
            },
    );
    lemma_spaced(revert, spaced);
    assert forall|k: int, i: int|
        0 <= k < spaced.len() && 0 <= i < spaced[k].len() implies #[trigger] spaced[k][i] != ';' by {
        if k == 0 {
            assert(revert[0][i] != ';');
        } else if i > 0 {
            assert(spaced[k][i] == revert[k][i - 1]);
        }
    }
    crate::text::fields_read_back(spaced, ';');
    assert(v.last() == join(revert, "; "@));
    assert(v[2] == "--on-active="@ + dec(secs as nat) + "s"@);
}

proof fn lemma_spaced(revert: Seq<Seq<char>>, spaced: Seq<Seq<char>>)
    requires
        spaced.len() == revert.len(),
        revert.len() > 0,
        spaced[0] == revert[0],
        forall|k: int| 0 < k < revert.len() ==> #[trigger] spaced[k] == seq![' '] + revert[k],
    ensures
        join(spaced, seq![';']) == join(revert, "; "@),
    decreases revert.len(),
{
    reveal_strlit("; ");
    if revert.len() > 1 {
        let a = revert.drop_last();
        let b = spaced.drop_last();
        assert forall|k: int| 0 < k < a.len() implies #[trigger] b[k] == seq![' '] + a[k] by {
            assert(spaced[k] == seq![' '] + revert[k]);
        }
        lemma_spaced(a, b);
        let last = revert.len() - 1;
        assert(spaced[last] == seq![' '] + revert[last]);
        assert(join(spaced, seq![';']) =~= join(revert, "; "@));
    }
}

/// The check dials the very host and port it was given.
pub proof fn the_check_dials_its_target(ns: Option<Seq<char>>, host: Seq<char>, port: Seq<char>)
    requires
        !host.contains(':'),
        !port.contains(':'),
    ensures
        dial_argv(ns, host + seq![':'] + port).last() == "exec 3<>/dev/tcp/"@ + host + seq!['/']
            + port,
        dial_argv(ns, host + seq![':'] + port)[dial_argv(ns, host).len() - 3] == "bash"@,
        dial_argv(ns, host + seq![':'] + port)[dial_argv(ns, host).len() - 2] == "-c"@,
{
    reveal_strlit("/");
    lemma_replaced_parts(host, seq![':'] + port, ':', "/"@);
    lemma_replaced_parts(seq![':'], port, ':', "/"@);
    lemma_nothing_replaced(host, ':', "/"@);
    lemma_nothing_replaced(port, ':', "/"@);
    assert(seq![':'].drop_last() =~= seq![]);
    assert(replace_char(seq![], ':', "/"@) =~= seq![]);
    assert(replace_char(seq![':'], ':', "/"@) =~= seq!['/']);
    assert(host + seq![':'] + port =~= host + (seq![':'] + port));
    let d = dial_argv(ns, host + seq![':'] + port);
    assert(d.last() =~= "exec 3<>/dev/tcp/"@ + host + seq!['/'] + port);
}

proof fn lemma_replaced_parts(x: Seq<char>, y: Seq<char>, c: char, with: Seq<char>)
    ensures
        replace_char(x + y, c, with) == replace_char(x, c, with) + replace_char(y, c, with),
    decreases y.len(),
{
    if y.len() == 0 {
        assert(x + y =~= x);
        assert(replace_char(x, c, with) + replace_char(y, c, with) =~= replace_char(x, c, with));
    } else {
        lemma_replaced_parts(x, y.drop_last(), c, with);
        assert((x + y).drop_last() =~= x + y.drop_last());
        assert((x + y).last() == y.last());
        assert(replace_char(x + y, c, with) =~= replace_char(x, c, with) + replace_char(
            y,
            c,
            with,
        ));
    }
}

proof fn lemma_nothing_replaced(s: Seq<char>, c: char, with: Seq<char>)
    requires
        !s.contains(c),
    ensures
        replace_char(s, c, with) == s,
    decreases s.len(),
{
    if s.len() > 0 {
        let t = s.drop_last();
        assert(s[s.len() - 1] == s.last());
        assert(!t.contains(c)) by {
            if t.contains(c) {
                let i = choose|i: int| 0 <= i < t.len() && t[i] == c;
                assert(s[i] == c);
            }
        }
        lemma_nothing_replaced(t, c, with);
        assert(s.contains(s.last()));
        assert(replace_char(s, c, with) =~= s);
    }
}

/// An error says what failed and why, what has to be done by hand, what could not be
/// reached, and every reason for a refusal.
pub proof fn an_error_says_what_failed(e: ErrorView, i: int)
    ensures
        e matches ErrorView::RolledBack { failed, stderr } ==> contains(e.message(), failed)
            && contains(e.message(), trim(stderr)),
        e matches ErrorView::Stranded { failed, remaining } ==> contains(e.message(), failed) && (0
            <= i < remaining.len() ==> contains(e.message(), remaining[i])),
        e matches ErrorView::VerificationFailed { target, detail } ==> contains(e.message(), target)
            && contains(e.message(), detail),
        e matches ErrorView::Io(t) ==> e.message() == t,
        e matches ErrorView::Refused(r) ==> (0 <= i < r.len() ==> contains(
            e.message(),
            r[i].sentence(debug_str(r[i].subject())),
        )),
{
    let m = e.message();
    match e {
        ErrorView::RolledBack { failed, stderr } => {
            let mid = " failed, so nothing was applied. The machine is as it was.\n  "@;
            lemma_inside(seq![], failed, mid + trim(stderr));
            assert(m =~= seq![] + failed + (mid + trim(stderr)));
            lemma_inside(failed + mid, trim(stderr), seq![]);
            assert(m =~= (failed + mid) + trim(stderr) + seq![]);
        },
        ErrorView::Stranded { failed, remaining } => {
            let mid = " failed AND the undo failed. Run by hand:"@;
            let v = seq![failed + mid] + indented(remaining);
            lemma_line_inside(v, 0);
            let (a, c) = choose|a: Seq<char>, c: Seq<char>| m == #[trigger] amid(a, v[0], c);
            lemma_inside(a, failed, mid + c);
            assert(m =~= a + failed + (mid + c));
            if 0 <= i < remaining.len() {
                lemma_line_inside(v, i + 1);
                let (a, c) = choose|a: Seq<char>, c: Seq<char>| m == #[trigger] amid(a, v[i + 1], c);
                let gap = indented(remaining)[i];
                assert(v[i + 1] == gap);
                let pad = gap.take(gap.len() - remaining[i].len());
                assert(gap =~= pad + remaining[i]);
                lemma_inside(a + pad, remaining[i], c);
                assert(m =~= (a + pad) + remaining[i] + c);
            }
        },
        ErrorView::VerificationFailed { target, detail } => {
            let a = "applied, then could not open a new connection to "@;
            let b = "), so it was reverted. An existing session surviving would have proved nothing: every open flow is excluded by construction."@;
            lemma_inside(a, target, " ("@ + detail + b);
            assert(m =~= a + target + (" ("@ + detail + b));
            lemma_inside(a + target + " ("@, detail, b);
        },
        ErrorView::Io(_) => {},
        ErrorView::Refused(r) => {
            if 0 <= i < r.len() {
                let s = r[i].sentence(debug_str(r[i].subject()));
                let v = seq!["not applied:"@] + refusal_lines(r);
                lemma_line_inside(v, i + 1);
                let (a, c) = choose|a: Seq<char>, c: Seq<char>| m == #[trigger] amid(a, v[i + 1], c);
                let line = refusal_lines(r)[i];
                assert(v[i + 1] == line);
                let pad = line.take(line.len() - s.len());
                assert(line =~= pad + s);
                lemma_inside(a + pad, s, c);
                assert(m =~= (a + pad) + s + c);
            }
        },
    }
}

/// What is as it should be is told by whether it will be taken back.
pub proof fn a_running_switch_is_told_of(s: Status)
    ensures
        s.recorded && s.table_present && s.rules_present && s.deadman_armed ==> s.sentence()
            == "applied, and reverting shortly unless confirmed"@,
        s.recorded && s.table_present && s.rules_present && !s.deadman_armed ==> s.sentence()
            == "applied and confirmed"@,
        !s.recorded && !s.table_present && !s.rules_present ==> s.sentence() == "nothing applied"@,
{
}

/// Two namespaces share neither a record nor a switch, and neither shares one with
/// the machine itself.
pub proof fn namespaces_keep_apart(a: OptionsView, b: OptionsView)
    ensures
        state_file(a) == state_file(b) ==> a.netns == b.netns,
        unit_of(a.netns) == unit_of(b.netns) ==> a.netns == b.netns,
{
    reveal_strlit(".");
    reveal_strlit("-");
    let s = STATE@.len() as int;
    let u = DEADMAN_UNIT@.len() as int;
    if let (Some(x), Some(y)) = (a.netns, b.netns) {
        assert(state_file(a).skip(s + 1) =~= x && state_file(b).skip(s + 1) =~= y);
        assert(unit_of(a.netns).skip(u + 1) =~= x && unit_of(b.netns).skip(u + 1) =~= y);
    }
    if a.netns is None {
        assert(state_file(a).len() == s && unit_of(a.netns).len() == u);
    }
    if b.netns is None {
        assert(state_file(b).len() == s && unit_of(b.netns).len() == u);
    }
}

proof fn lemma_argv_words(ns: Option<Seq<char>>, cmd: Seq<char>)
    requires
        ns matches Some(n) ==> crate::text::is_word(n),
    ensures
        words(join(argv_of(ns, cmd), " "@)) == argv_of(ns, cmd),
{
    reveal_strlit(" ");
    reveal_strlit("nsenter");
    reveal_strlit("--net=/var/run/netns/");
    assert(" "@ =~= seq![' ']);
    let v = argv_of(ns, cmd);
    assert forall|i: int| 0 <= i < v.len() implies crate::text::is_word(#[trigger] v[i]) by {
        if i < entry(ns).len() {
            let n = ns->0;
            if i == 1 {
                let w = "--net=/var/run/netns/"@ + n;
                assert(v[i] == w);
                assert forall|k: int| 0 <= k < w.len() implies !crate::text::is_whitespace(
                    #[trigger] w[k],
                ) by {
                    if k >= "--net=/var/run/netns/"@.len() {
                        assert(w[k] == n[k - "--net=/var/run/netns/"@.len()]);
                    }
                }
            }
        } else {
            let k = i - entry(ns).len();
            assert(v[i] == words(cmd)[k]);
            crate::text::lemma_words_are_words(cmd, k);
        }
    }
    crate::text::words_read_back(v);
}

/// A rehearsal shows what would be done: a line for every routing command, of the
/// very words that would be run, and the whole ruleset behind them.
pub proof fn a_rehearsal_shows_what_would_be_run(plan: PlanView, ns: Option<Seq<char>>, i: int)
    requires
        ns matches Some(n) ==> crate::text::is_word(n),
    ensures
        rehearsal_lines(plan, ns).len() == plan.ip.len() + 1,
        0 <= i < plan.ip.len() ==> words(rehearsal_lines(plan, ns)[i]) == argv_of(ns, plan.ip[i]),
        contains(rehearsal_lines(plan, ns).last(), plan.nft),
{
    if 0 <= i < plan.ip.len() {
        lemma_argv_words(ns, plan.ip[i]);
    }
    lemma_inside(
        join(argv_of(ns, ""@), " "@) + " nft -f - <<'RULES'\n"@,
        plan.nft,
        "RULES"@,
    );
}

} // verus!
