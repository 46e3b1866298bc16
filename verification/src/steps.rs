//! Applying, reverting and confirming, one step at a time.
//!
//! Each task says what has to be done next ([`Action`]) and is told how it went
//! ([`Outcome`]). Whoever runs it does as it says and reports back until there
//! is nothing left to do.

use vstd::prelude::*;
use vstd::string::*;

use crate::apply::{
    argv_of, arm_argv, dial_argv, entry, record_lines, record_of, rehearsal_lines, state_file, unit_of,
    undo_list, AppliedView, ErrorView, OptionsView,
};
use crate::apply::{
    argv, arm_command, dial_command, rehearsal, state_path, undo_steps, unit_name, Applied,
    ApplyError, Options,
};
use crate::order::views;
use crate::policy::{Host, Plan, PlanView, Policy};
use crate::preflight::{refusals, Refusal, RefusalView};
use crate::text::{
    borrow_opt, copies, copy, lemma_texts_push, lemma_words_hold_no_space, opt_text, texts, trim,
    trimmed, unlines, words,
};

verus! {

// ---------------------------------------------------------------------------
// Actions and outcomes
// ---------------------------------------------------------------------------

/// Something to be done to the machine.
#[derive(Debug)]
pub enum Action {
    /// Show a text.
    Print(String),
    /// Read a file.
    Read { path: String },
    /// Stop the dead-man switch: run the first command and then, whatever came
    /// of it, the second.
    Disarm { stop: Vec<String>, reset: Vec<String> },
    /// Run a command.
    Run { argv: Vec<String> },
    /// Run a command with a text on its standard input.
    Load { argv: Vec<String>, input: String },
    /// Write a file, with the directories it needs.
    Write { path: String, text: String },
    /// Remove a file.
    Remove { path: String },
}

/// What an [`Action`] says.
pub enum ActionView {
    Print(Seq<char>),
    Read { path: Seq<char> },
    Disarm { stop: Seq<Seq<char>>, reset: Seq<Seq<char>> },
    Run { argv: Seq<Seq<char>> },
    Load { argv: Seq<Seq<char>>, input: Seq<char> },
    Write { path: Seq<char>, text: Seq<char> },
    Remove { path: Seq<char> },
}

impl View for Action {
    type V = ActionView;

    open spec fn view(&self) -> ActionView {
        match *self {
            Action::Print(t) => ActionView::Print(t@),
            Action::Read { path } => ActionView::Read { path: path@ },
            Action::Disarm { stop, reset } => ActionView::Disarm {
                stop: texts(stop@),
                reset: texts(reset@),
            },
            Action::Run { argv } => ActionView::Run { argv: texts(argv@) },
            Action::Load { argv, input } => ActionView::Load { argv: texts(argv@), input: input@ },
            Action::Write { path, text } => ActionView::Write { path: path@, text: text@ },
            Action::Remove { path } => ActionView::Remove { path: path@ },
        }
    }
}

pub open spec fn opt_action(o: Option<Action>) -> Option<ActionView> {
    match o {
        Some(a) => Some(a@),
        None => None,
    }
}

/// How an action went.
#[derive(Debug)]
pub enum Outcome {
    /// It worked.
    Done,
    /// It worked, and this is what was read.
    Text(String),
    /// The command ran and failed, with this on its standard error.
    Failed(String),
    /// It could not be started, read or written, for this reason.
    Error(String),
}

/// What an [`Outcome`] says.
pub enum OutcomeView {
    Done,
    Text(Seq<char>),
    Failed(Seq<char>),
    Error(Seq<char>),
}

impl OutcomeView {
    pub open spec fn worked(self) -> bool {
        self is Done || self is Text
    }

    /// Why it did not work.
    pub open spec fn reason(self) -> Seq<char> {
        match self {
            OutcomeView::Failed(e) => e,
            OutcomeView::Error(e) => e,
            _ => ""@,
        }
    }
}

impl View for Outcome {
    type V = OutcomeView;

    open spec fn view(&self) -> OutcomeView {
        match *self {
            Outcome::Done => OutcomeView::Done,
            Outcome::Text(t) => OutcomeView::Text(t@),
            Outcome::Failed(e) => OutcomeView::Failed(e@),
            Outcome::Error(e) => OutcomeView::Error(e@),
        }
    }
}

impl Outcome {
    fn is_good(&self) -> (r: bool)
        ensures
            r == self@.worked(),
    {
        match self {
            Outcome::Done | Outcome::Text(_) => true,
            Outcome::Failed(_) | Outcome::Error(_) => false,
        }
    }

    fn why(self) -> (r: String)
        ensures
            r@ == self@.reason(),
    {
        match self {
            Outcome::Failed(e) => e,
            Outcome::Error(e) => e,
            _ => String::from_str(""),
        }
    }
}

pub open spec fn run_action(ns: Option<Seq<char>>, cmd: Seq<char>) -> ActionView {
    ActionView::Run { argv: argv_of(ns, cmd) }
}

pub open spec fn disarm_action(ns: Option<Seq<char>>) -> ActionView {
    ActionView::Disarm {
        stop: seq!["systemctl"@, "stop"@, unit_of(ns) + ".timer"@],
        reset: seq!["systemctl"@, "reset-failed"@, unit_of(ns)],
    }
}

pub open spec fn write_action(opts: OptionsView, a: AppliedView) -> ActionView {
    ActionView::Write { path: state_file(opts), text: unlines(record_lines(a)) }
}

pub open spec fn forget_action(opts: OptionsView) -> ActionView {
    ActionView::Remove { path: state_file(opts) }
}

pub open spec fn arm_action(opts: OptionsView, revert: Seq<Seq<char>>) -> ActionView {
    ActionView::Run { argv: arm_argv(opts.netns, revert, opts.deadman_secs) }
}

fn run_one(ns: Option<&str>, cmd: &str) -> (r: Action)
    ensures
        r@ == run_action(opt_text(ns), cmd@),
{
    Action::Run { argv: argv(ns, cmd) }
}

fn disarm(ns: Option<&str>) -> (r: Action)
    ensures
        r@ == disarm_action(opt_text(ns)),
{
    let unit: String = unit_name(ns);
    let mut timer: String = copy(unit.as_str());
    timer.append(".timer");
    let mut stop: Vec<String> = Vec::new();
    stop.push(String::from_str("systemctl"));
    stop.push(String::from_str("stop"));
    stop.push(timer);
    let mut reset: Vec<String> = Vec::new();
    reset.push(String::from_str("systemctl"));
    reset.push(String::from_str("reset-failed"));
    reset.push(unit);
    assert(texts(stop@) =~= seq!["systemctl"@, "stop"@, unit_of(opt_text(ns)) + ".timer"@]);
    assert(texts(reset@) =~= seq!["systemctl"@, "reset-failed"@, unit_of(opt_text(ns))]);
    Action::Disarm { stop, reset }
}

fn record(opts: &Options, applied: &Applied) -> (r: Action)
    ensures
        r@ == write_action(opts@, applied@),
{
    Action::Write { path: state_path(opts), text: applied.serialise() }
}

// ---------------------------------------------------------------------------
// Undoing a list of commands
// ---------------------------------------------------------------------------

/// Commands that are being undone: the one that is running, those behind it,
/// those that did not work, and whether any did.
///
/// A later step may still be needed even if an earlier one was never applied,
/// so all of them are tried.
#[derive(Debug)]
pub struct Undo {
    pub now: String,
    pub rest: Vec<String>,
    pub left: Vec<String>,
    pub worked: bool,
}

/// What an [`Undo`] says.
pub struct UndoView {
    pub now: Seq<char>,
    pub rest: Seq<Seq<char>>,
    pub left: Seq<Seq<char>>,
    pub worked: bool,
}

impl View for Undo {
    type V = UndoView;

    open spec fn view(&self) -> UndoView {
        UndoView {
            now: self.now@,
            rest: texts(self.rest@),
            left: texts(self.left@),
            worked: self.worked,
        }
    }
}

/// Where an undo stands once a step is done.
pub enum UndoStep {
    /// There is more to try.
    More(UndoView),
    /// Everything was tried, and something worked. A step that fails because
    /// the thing was not there is normal.
    Undone,
    /// Everything was tried and nothing worked.
    Stuck(Seq<Seq<char>>),
}

impl UndoView {
    pub open spec fn start(cmds: Seq<Seq<char>>) -> UndoView {
        UndoView { now: cmds[0], rest: cmds.skip(1), left: seq![], worked: false }
    }

    pub open spec fn after(self, ok: bool) -> UndoStep {
        let left = if ok {
            self.left
        } else {
            self.left.push(self.now)
        };
        let worked = self.worked || ok;
        if self.rest.len() > 0 {
            UndoStep::More(UndoView { now: self.rest[0], rest: self.rest.skip(1), left, worked })
        } else if worked {
            UndoStep::Undone
        } else {
            UndoStep::Stuck(left)
        }
    }
}

/// Where an undo stands once a step is done.
enum AfterUndo {
    More(Undo),
    Undone,
    Stuck(Vec<String>),
}

impl View for AfterUndo {
    type V = UndoStep;

    closed spec fn view(&self) -> UndoStep {
        match *self {
            AfterUndo::More(u) => UndoStep::More(u@),
            AfterUndo::Undone => UndoStep::Undone,
            AfterUndo::Stuck(left) => UndoStep::Stuck(texts(left@)),
        }
    }
}

/// The first of a list, and the rest.
fn behead(cmds: Vec<String>) -> (r: (String, Vec<String>))
    requires
        cmds@.len() > 0,
    ensures
        r.0@ == texts(cmds@)[0],
        texts(r.1@) == texts(cmds@).skip(1),
{
    let mut rest: Vec<String> = cmds;
    let ghost all = rest@;
    let now: String = rest.remove(0);
    assert(texts(rest@) =~= texts(all).skip(1));
    (now, rest)
}

impl Undo {
    fn start(cmds: Vec<String>) -> (r: Undo)
        requires
            cmds@.len() > 0,
        ensures
            r@ == UndoView::start(texts(cmds@)),
    {
        let (now, rest): (String, Vec<String>) = behead(cmds);
        let u: Undo = Undo { now, rest, left: Vec::new(), worked: false };
        assert(u@.left =~= Seq::<Seq<char>>::empty());
        u
    }

    fn after(self, ok: bool) -> (r: AfterUndo)
        ensures
            r@ == self@.after(ok),
    {
        let mut left: Vec<String> = self.left;
        if !ok {
            let ghost before = left@;
            left.push(self.now);
            proof {
                lemma_texts_push(before, self.now);
            }
        }
        let worked: bool = self.worked || ok;
        assert(texts(self.rest@).len() == self.rest@.len());
        if self.rest.len() > 0 {
            let (now, rest): (String, Vec<String>) = behead(self.rest);
            AfterUndo::More(Undo { now, rest, left, worked })
        } else if worked {
            AfterUndo::Undone
        } else {
            AfterUndo::Stuck(left)
        }
    }
}

// ---------------------------------------------------------------------------
// Applying
// ---------------------------------------------------------------------------

/// Where applying a plan stands.
#[derive(Debug)]
enum Phase {
    /// Only to show what would be done.
    Rehearse,
    /// Look for a record of what is applied already.
    Look,
    /// Stop the switch of what is applied already.
    Quiet(Vec<String>),
    /// Take out what is applied already.
    Clear(Undo),
    /// Remove its record.
    Forget,
    /// Set up the routing.
    Route { now: String, rest: Vec<String> },
    /// Load the ruleset.
    Load,
    /// Stop a switch that may still be counting.
    Still,
    /// Arm the switch.
    Arm,
    /// Record what is applied.
    Note(bool),
    /// Open a new connection.
    Dial { deadman: bool, target: String },
    /// Something failed: stop the switch, then undo, then remove the record.
    Hush(ApplyError),
    /// Something failed: undo what was done.
    Back { undo: Undo, why: ApplyError, forget: bool },
    /// Something failed: remove the record.
    Erase(ApplyError),
    /// Nothing is left to do.
    Applied(Applied),
    /// Nothing is left to do.
    Failed(ApplyError),
}

/// What a phase says.
pub enum PhaseView {
    Rehearse,
    Look,
    Quiet(Seq<Seq<char>>),
    Clear(UndoView),
    Forget,
    Route { now: Seq<char>, rest: Seq<Seq<char>> },
    Load,
    Still,
    Arm,
    Note(bool),
    Dial { deadman: bool, target: Seq<char> },
    Hush(ErrorView),
    Back { undo: UndoView, why: ErrorView, forget: bool },
    Erase(ErrorView),
    Applied(AppliedView),
    Failed(ErrorView),
}

impl View for Phase {
    type V = PhaseView;

    closed spec fn view(&self) -> PhaseView {
        match *self {
            Phase::Rehearse => PhaseView::Rehearse,
            Phase::Look => PhaseView::Look,
            Phase::Quiet(cmds) => PhaseView::Quiet(texts(cmds@)),
            Phase::Clear(u) => PhaseView::Clear(u@),
            Phase::Forget => PhaseView::Forget,
            Phase::Route { now, rest } => PhaseView::Route { now: now@, rest: texts(rest@) },
            Phase::Load => PhaseView::Load,
            Phase::Still => PhaseView::Still,
            Phase::Arm => PhaseView::Arm,
            Phase::Note(d) => PhaseView::Note(d),
            Phase::Dial { deadman, target } => PhaseView::Dial { deadman, target: target@ },
            Phase::Hush(why) => PhaseView::Hush(why@),
            Phase::Back { undo, why, forget } => PhaseView::Back { undo: undo@, why: why@, forget },
            Phase::Erase(why) => PhaseView::Erase(why@),
            Phase::Applied(a) => PhaseView::Applied(a@),
            Phase::Failed(why) => PhaseView::Failed(why@),
        }
    }
}

/// A plan that is being applied.
#[derive(Debug)]
pub struct Applying {
    plan: Plan,
    opts: Options,
    phase: Phase,
}

/// What an [`Applying`] says.
pub struct ApplyingView {
    pub plan: PlanView,
    pub opts: OptionsView,
    pub phase: PhaseView,
}

impl View for Applying {
    type V = ApplyingView;

    closed spec fn view(&self) -> ApplyingView {
        ApplyingView { plan: self.plan@, opts: self.opts@, phase: self.phase@ }
    }
}

impl ApplyingView {
    pub open spec fn at(self, phase: PhaseView) -> ApplyingView {
        ApplyingView { plan: self.plan, opts: self.opts, phase }
    }

    /// What is applied once everything is done.
    pub open spec fn applied(self, deadman: bool) -> AppliedView {
        AppliedView { revert: self.plan.revert, deadman }
    }

    /// Where the routing begins: the commands that are still to run.
    pub open spec fn routing(self, cmds: Seq<Seq<char>>) -> PhaseView {
        if cmds.len() > 0 {
            PhaseView::Route { now: cmds[0], rest: cmds.skip(1) }
        } else {
            PhaseView::Load
        }
    }

    /// Where the undo of a failure begins.
    pub open spec fn backing(self, loaded: bool, why: ErrorView, forget: bool) -> PhaseView {
        let cmds = undo_list(self.plan.revert, loaded);
        if cmds.len() > 0 {
            PhaseView::Back { undo: UndoView::start(cmds), why, forget }
        } else if forget {
            PhaseView::Erase(why)
        } else {
            PhaseView::Failed(why)
        }
    }

    /// What has to be done next.
    pub open spec fn action(self) -> Option<ActionView> {
        let ns = self.opts.netns;
        match self.phase {
            PhaseView::Rehearse => Some(
                ActionView::Print(unlines(rehearsal_lines(self.plan, ns))),
            ),
            PhaseView::Look => Some(ActionView::Read { path: state_file(self.opts) }),
            PhaseView::Quiet(_) => Some(disarm_action(ns)),
            PhaseView::Clear(u) => Some(run_action(ns, u.now)),
            PhaseView::Forget => Some(forget_action(self.opts)),
            PhaseView::Route { now, .. } => Some(run_action(ns, now)),
            PhaseView::Load => Some(
                ActionView::Load { argv: argv_of(ns, "nft -f -"@), input: self.plan.nft },
            ),
            PhaseView::Still => Some(disarm_action(ns)),
            PhaseView::Arm => Some(arm_action(self.opts, self.plan.revert)),
            PhaseView::Note(d) => Some(write_action(self.opts, self.applied(d))),
            PhaseView::Dial { target, .. } => Some(
                ActionView::Run { argv: dial_argv(ns, target) },
            ),
            PhaseView::Hush(_) => Some(disarm_action(ns)),
            PhaseView::Back { undo, .. } => Some(run_action(ns, undo.now)),
            PhaseView::Erase(_) => Some(forget_action(self.opts)),
            PhaseView::Applied(_) => None,
            PhaseView::Failed(_) => None,
        }
    }

    /// Where applying stands after an outcome.
    ///
    /// What is applied already is taken out first: applying a policy makes it
    /// the policy, and does not add it to what was there. Then the routing,
    /// then the ruleset, then the switch, the record, and the one check that
    /// tests any of it. Whatever fails, everything that was done is undone, and
    /// once a record may have been begun it is removed: one that was only half
    /// written is as misleading as one that is no longer true.
    pub open spec fn next(self, o: OutcomeView) -> PhaseView {
        match self.phase {
            PhaseView::Rehearse => PhaseView::Applied(self.applied(false)),
            PhaseView::Look => match o {
                OutcomeView::Text(t) => PhaseView::Quiet(record_of(t).revert),
                _ => self.routing(self.plan.ip),
            },
            PhaseView::Quiet(cmds) => if cmds.len() > 0 {
                PhaseView::Clear(UndoView::start(cmds))
            } else {
                PhaseView::Forget
            },
            PhaseView::Clear(u) => match u.after(o.worked()) {
                UndoStep::More(v) => PhaseView::Clear(v),
                UndoStep::Undone => PhaseView::Forget,
                UndoStep::Stuck(_) => self.routing(self.plan.ip),
            },
            PhaseView::Forget => self.routing(self.plan.ip),
            PhaseView::Route { now, rest } => if o.worked() {
                self.routing(rest)
            } else {
                self.backing(
                    false,
                    ErrorView::RolledBack { failed: now, stderr: o.reason() },
                    false,
                )
            },
            PhaseView::Load => if o.worked() {
                if self.opts.deadman_secs > 0 {
                    PhaseView::Still
                } else {
                    PhaseView::Note(false)
                }
            } else {
                self.backing(
                    true,
                    ErrorView::RolledBack { failed: "nft -f -"@, stderr: o.reason() },
                    false,
                )
            },
            PhaseView::Still => PhaseView::Arm,
            PhaseView::Arm => match o {
                OutcomeView::Failed(stderr) => self.backing(
                    true,
                    ErrorView::RolledBack { failed: "systemd-run (dead-man switch)"@, stderr },
                    false,
                ),
                OutcomeView::Error(e) => self.backing(true, ErrorView::Io(e), false),
                _ => PhaseView::Note(true),
            },
            PhaseView::Note(deadman) => if o.worked() {
                match self.opts.verify {
                    Some(target) => PhaseView::Dial { deadman, target },
                    None => PhaseView::Applied(self.applied(deadman)),
                }
            } else {
                PhaseView::Hush(ErrorView::Io(o.reason()))
            },
            PhaseView::Dial { deadman, target } => match o {
                OutcomeView::Failed(stderr) => PhaseView::Hush(
                    ErrorView::VerificationFailed { target, detail: trim(stderr) },
                ),
                OutcomeView::Error(e) => PhaseView::Hush(
                    ErrorView::VerificationFailed { target, detail: e },
                ),
                _ => PhaseView::Applied(self.applied(deadman)),
            },
            PhaseView::Hush(why) => self.backing(true, why, true),
            PhaseView::Back { undo, why, forget } => match undo.after(o.worked()) {
                UndoStep::More(v) => PhaseView::Back { undo: v, why, forget },
                UndoStep::Undone => if forget {
                    PhaseView::Erase(why)
                } else {
                    PhaseView::Failed(why)
                },
                UndoStep::Stuck(left) => PhaseView::Failed(
                    ErrorView::Stranded { failed: "rollback"@, remaining: left },
                ),
            },
            PhaseView::Erase(why) => PhaseView::Failed(why),
            PhaseView::Applied(a) => PhaseView::Applied(a),
            PhaseView::Failed(why) => PhaseView::Failed(why),
        }
    }

    /// What came of it, once nothing is left to do.
    pub open spec fn end(self) -> Option<EndView> {
        match self.phase {
            PhaseView::Applied(a) => Some(EndView::Good(a)),
            PhaseView::Failed(why) => Some(EndView::Bad(why)),
            _ => None,
        }
    }
}

/// What came of a task.
pub enum EndView {
    Good(AppliedView),
    Bad(ErrorView),
}

pub open spec fn end_view(r: Result<Applied, ApplyError>) -> EndView {
    match r {
        Ok(a) => EndView::Good(a@),
        Err(e) => EndView::Bad(e@),
    }
}

/// Where applying begins: a plan that is refused is not begun.
pub open spec fn first_phase(refused: Seq<RefusalView>, opts: OptionsView) -> PhaseView {
    if refused.len() > 0 {
        PhaseView::Failed(ErrorView::Refused(refused))
    } else if opts.dry_run {
        PhaseView::Rehearse
    } else {
        PhaseView::Look
    }
}

/// Apply a plan.
///
/// Refuses outright if the plan should not be applied. Otherwise: routing
/// first, ruleset last, undoing everything already done if any step fails.
/// Every error but [`ApplyError::Stranded`] leaves the machine as it was.
pub fn apply(policy: &Policy, host: &Host, plan: &Plan, opts: &Options) -> (r: Applying)
    ensures
        r@ == (ApplyingView {
            plan: plan@,
            opts: opts@,
            phase: first_phase(refusals(plan@, policy@, host@), opts@),
        }),
{
    let refused: Vec<Refusal> = plan.preflight(policy, host);
    assert(views(refused@).len() == refused@.len());
    let phase: Phase = if refused.len() > 0 {
        Phase::Failed(ApplyError::Refused(refused))
    } else if opts.dry_run {
        Phase::Rehearse
    } else {
        Phase::Look
    };
    Applying { plan: plan.clone(), opts: opts.clone(), phase }
}

impl Applying {
    /// What has to be done next; nothing once it is over.
    pub fn action(&self) -> (r: Option<Action>)
        ensures
            opt_action(r) == self@.action(),
    {
        let ns: Option<&str> = borrow_opt(&self.opts.netns);
        match &self.phase {
            Phase::Rehearse => Some(Action::Print(rehearsal(&self.plan, ns))),
            Phase::Look => Some(Action::Read { path: state_path(&self.opts) }),
            Phase::Quiet(_) => Some(disarm(ns)),
            Phase::Clear(u) => Some(run_one(ns, u.now.as_str())),
            Phase::Forget => Some(Action::Remove { path: state_path(&self.opts) }),
            Phase::Route { now, .. } => Some(run_one(ns, now.as_str())),
            Phase::Load => Some(
                Action::Load { argv: argv(ns, "nft -f -"), input: copy(self.plan.nft.as_str()) },
            ),
            Phase::Still => Some(disarm(ns)),
            Phase::Arm => Some(
                Action::Run {
                    argv: arm_command(ns, &self.plan.revert, self.opts.deadman_secs),
                },
            ),
            Phase::Note(d) => {
                let applied: Applied = Applied {
                    revert: copies(&self.plan.revert),
                    deadman: *d,
                };
                Some(record(&self.opts, &applied))
            },
            Phase::Dial { target, .. } => Some(
                Action::Run { argv: dial_command(ns, target.as_str()) },
            ),
            Phase::Hush(_) => Some(disarm(ns)),
            Phase::Back { undo, .. } => Some(run_one(ns, undo.now.as_str())),
            Phase::Erase(_) => Some(Action::Remove { path: state_path(&self.opts) }),
            Phase::Applied(_) => None,
            Phase::Failed(_) => None,
        }
    }

    fn routing(cmds: Vec<String>, task: Ghost<ApplyingView>) -> (r: Phase)
        ensures
            r@ == task@.routing(texts(cmds@)),
    {
        assert(texts(cmds@).len() == cmds@.len());
        if cmds.len() > 0 {
            let (now, rest): (String, Vec<String>) = behead(cmds);
            Phase::Route { now, rest }
        } else {
            Phase::Load
        }
    }

    fn backing(plan: &Plan, loaded: bool, why: ApplyError, forget: bool, task: Ghost<ApplyingView>)
        -> (r: Phase)
        requires
            task@.plan == plan@,
        ensures
            r@ == task@.backing(loaded, why@, forget),
    {
        let cmds: Vec<String> = undo_steps(plan, loaded);
        assert(texts(cmds@).len() == cmds@.len());
        if cmds.len() > 0 {
            Phase::Back { undo: Undo::start(cmds), why, forget }
        } else if forget {
            Phase::Erase(why)
        } else {
            Phase::Failed(why)
        }
    }

    /// Go on after an outcome.
    pub fn advance(self, outcome: Outcome) -> (r: Applying)
        ensures
            r@ == self@.at(self@.next(outcome@)),
    {
        let ghost task = self@;
        let ok: bool = outcome.is_good();
        let Applying { plan, opts, phase } = self;
        let next: Phase = match phase {
            Phase::Rehearse => Phase::Applied(
                Applied { revert: copies(&plan.revert), deadman: false },
            ),
            Phase::Look => match outcome {
                Outcome::Text(t) => Phase::Quiet(Applied::parse(t.as_str()).revert),
                _ => Self::routing(copies(&plan.ip), Ghost(task)),
            },
            Phase::Quiet(cmds) => {
                assert(texts(cmds@).len() == cmds@.len());
                if cmds.len() > 0 {
                    Phase::Clear(Undo::start(cmds))
                } else {
                    Phase::Forget
                }
            },
            Phase::Clear(u) => match u.after(ok) {
                AfterUndo::More(v) => Phase::Clear(v),
                AfterUndo::Undone => Phase::Forget,
                AfterUndo::Stuck(_) => Self::routing(copies(&plan.ip), Ghost(task)),
            },
            Phase::Forget => Self::routing(copies(&plan.ip), Ghost(task)),
            Phase::Route { now, rest } => if ok {
                Self::routing(rest, Ghost(task))
            } else {
                Self::backing(
                    &plan,
                    false,
                    ApplyError::RolledBack { failed: now, stderr: outcome.why() },
                    false,
                    Ghost(task),
                )
            },
            Phase::Load => if ok {
                if opts.deadman_secs > 0 {
                    Phase::Still
                } else {
                    Phase::Note(false)
                }
            } else {
                Self::backing(
                    &plan,
                    true,
                    ApplyError::RolledBack {
                        failed: String::from_str("nft -f -"),
                        stderr: outcome.why(),
                    },
                    false,
                    Ghost(task),
                )
            },
            Phase::Still => Phase::Arm,
            Phase::Arm => match outcome {
                Outcome::Failed(stderr) => Self::backing(
                    &plan,
                    true,
                    ApplyError::RolledBack {
                        failed: String::from_str("systemd-run (dead-man switch)"),
                        stderr,
                    },
                    false,
                    Ghost(task),
                ),
                Outcome::Error(e) => Self::backing(
                    &plan,
                    true,
                    ApplyError::Io(e),
                    false,
                    Ghost(task),
                ),
                _ => Phase::Note(true),
            },
            Phase::Note(deadman) => if ok {
                match &opts.verify {
                    Some(target) => Phase::Dial { deadman, target: copy(target.as_str()) },
                    None => Phase::Applied(Applied { revert: copies(&plan.revert), deadman }),
                }
            } else {
                Phase::Hush(ApplyError::Io(outcome.why()))
            },
            Phase::Dial { deadman, target } => match outcome {
                Outcome::Failed(stderr) => Phase::Hush(
                    ApplyError::VerificationFailed {
                        target,
                        detail: trimmed(stderr.as_str()),
                    },
                ),
                Outcome::Error(e) => Phase::Hush(
                    ApplyError::VerificationFailed { target, detail: e },
                ),
                _ => Phase::Applied(Applied { revert: copies(&plan.revert), deadman }),
            },
            Phase::Hush(why) => Self::backing(&plan, true, why, true, Ghost(task)),
            Phase::Back { undo, why, forget } => match undo.after(ok) {
                AfterUndo::More(v) => Phase::Back { undo: v, why, forget },
                AfterUndo::Undone => if forget {
                    Phase::Erase(why)
                } else {
                    Phase::Failed(why)
                },
                AfterUndo::Stuck(left) => Phase::Failed(
                    ApplyError::Stranded {
                        failed: String::from_str("rollback"),
                        remaining: left,
                    },
                ),
            },
            Phase::Erase(why) => Phase::Failed(why),
            Phase::Applied(a) => Phase::Applied(a),
            Phase::Failed(why) => Phase::Failed(why),
        };
        Applying { plan, opts, phase: next }
    }

    /// What came of it, or the task itself where it is not over.
    pub fn finish(self) -> (r: Result<Result<Applied, ApplyError>, Applying>)
        ensures
            match r {
                Ok(end) => self@.end() == Some(end_view(end)),
                Err(task) => self@.end() is None && task@ == self@,
            },
    {
        let Applying { plan, opts, phase } = self;
        match phase {
            Phase::Applied(a) => Ok(Ok(a)),
            Phase::Failed(why) => Ok(Err(why)),
            other => Err(Applying { plan, opts, phase: other }),
        }
    }
}

// ---------------------------------------------------------------------------
// Reverting
// ---------------------------------------------------------------------------

/// Where reverting stands.
#[derive(Debug)]
enum RevertPhase {
    /// Read the record.
    Read,
    /// Stop the switch.
    Quiet(Applied),
    /// Undo what is recorded.
    Back { undo: Undo, applied: Applied },
    /// Remove the record.
    Forget(Applied),
    /// Nothing is left to do.
    Over(Applied),
    /// Nothing is left to do.
    Failed(ApplyError),
}

/// What such a phase says.
pub enum RevertPhaseView {
    Read,
    Quiet(AppliedView),
    Back { undo: UndoView, applied: AppliedView },
    Forget(AppliedView),
    Over(AppliedView),
    Failed(ErrorView),
}

impl View for RevertPhase {
    type V = RevertPhaseView;

    closed spec fn view(&self) -> RevertPhaseView {
        match *self {
            RevertPhase::Read => RevertPhaseView::Read,
            RevertPhase::Quiet(a) => RevertPhaseView::Quiet(a@),
            RevertPhase::Back { undo, applied } => RevertPhaseView::Back {
                undo: undo@,
                applied: applied@,
            },
            RevertPhase::Forget(a) => RevertPhaseView::Forget(a@),
            RevertPhase::Over(a) => RevertPhaseView::Over(a@),
            RevertPhase::Failed(e) => RevertPhaseView::Failed(e@),
        }
    }
}

/// A policy that is being taken back.
#[derive(Debug)]
pub struct Reverting {
    opts: Options,
    phase: RevertPhase,
}

/// What a [`Reverting`] says.
pub struct RevertingView {
    pub opts: OptionsView,
    pub phase: RevertPhaseView,
}

impl View for Reverting {
    type V = RevertingView;

    closed spec fn view(&self) -> RevertingView {
        RevertingView { opts: self.opts@, phase: self.phase@ }
    }
}

impl RevertingView {
    pub open spec fn at(self, phase: RevertPhaseView) -> RevertingView {
        RevertingView { opts: self.opts, phase }
    }

    /// What has to be done next.
    pub open spec fn action(self) -> Option<ActionView> {
        let ns = self.opts.netns;
        match self.phase {
            RevertPhaseView::Read => Some(ActionView::Read { path: state_file(self.opts) }),
            RevertPhaseView::Quiet(_) => Some(disarm_action(ns)),
            RevertPhaseView::Back { undo, .. } => Some(run_action(ns, undo.now)),
            RevertPhaseView::Forget(_) => Some(forget_action(self.opts)),
            RevertPhaseView::Over(_) => None,
            RevertPhaseView::Failed(_) => None,
        }
    }

    /// Where reverting stands after an outcome. The record goes last, and only
    /// where something could be undone.
    pub open spec fn next(self, o: OutcomeView) -> RevertPhaseView {
        match self.phase {
            RevertPhaseView::Read => match o {
                OutcomeView::Text(t) => RevertPhaseView::Quiet(record_of(t)),
                OutcomeView::Done => RevertPhaseView::Quiet(record_of(""@)),
                _ => RevertPhaseView::Failed(ErrorView::Io(o.reason())),
            },
            RevertPhaseView::Quiet(a) => if a.revert.len() > 0 {
                RevertPhaseView::Back { undo: UndoView::start(a.revert), applied: a }
            } else {
                RevertPhaseView::Forget(a)
            },
            RevertPhaseView::Back { undo, applied } => match undo.after(o.worked()) {
                UndoStep::More(v) => RevertPhaseView::Back { undo: v, applied },
                UndoStep::Undone => RevertPhaseView::Forget(applied),
                UndoStep::Stuck(left) => RevertPhaseView::Failed(
                    ErrorView::Stranded { failed: "rollback"@, remaining: left },
                ),
            },
            RevertPhaseView::Forget(a) => RevertPhaseView::Over(a),
            RevertPhaseView::Over(a) => RevertPhaseView::Over(a),
            RevertPhaseView::Failed(e) => RevertPhaseView::Failed(e),
        }
    }

    /// What came of it, once nothing is left to do.
    pub open spec fn end(self) -> Option<EndView> {
        match self.phase {
            RevertPhaseView::Over(a) => Some(EndView::Good(a)),
            RevertPhaseView::Failed(e) => Some(EndView::Bad(e)),
            _ => None,
        }
    }
}

/// Undo whatever is applied, using the record written when it was.
pub fn revert(opts: &Options) -> (r: Reverting)
    ensures
        r@ == (RevertingView { opts: opts@, phase: RevertPhaseView::Read }),
{
    Reverting { opts: opts.clone(), phase: RevertPhase::Read }
}

impl Reverting {
    /// What has to be done next; nothing once it is over.
    pub fn action(&self) -> (r: Option<Action>)
        ensures
            opt_action(r) == self@.action(),
    {
        let ns: Option<&str> = borrow_opt(&self.opts.netns);
        match &self.phase {
            RevertPhase::Read => Some(Action::Read { path: state_path(&self.opts) }),
            RevertPhase::Quiet(_) => Some(disarm(ns)),
            RevertPhase::Back { undo, .. } => Some(run_one(ns, undo.now.as_str())),
            RevertPhase::Forget(_) => Some(Action::Remove { path: state_path(&self.opts) }),
            RevertPhase::Over(_) => None,
            RevertPhase::Failed(_) => None,
        }
    }

    /// Go on after an outcome.
    pub fn advance(self, outcome: Outcome) -> (r: Reverting)
        ensures
            r@ == self@.at(self@.next(outcome@)),
    {
        let ok: bool = outcome.is_good();
        let Reverting { opts, phase } = self;
        let next: RevertPhase = match phase {
            RevertPhase::Read => match outcome {
                Outcome::Text(t) => RevertPhase::Quiet(Applied::parse(t.as_str())),
                Outcome::Done => RevertPhase::Quiet(Applied::parse("")),
                other => RevertPhase::Failed(ApplyError::Io(other.why())),
            },
            RevertPhase::Quiet(a) => {
                assert(texts(a.revert@).len() == a.revert@.len());
                if a.revert.len() > 0 {
                    RevertPhase::Back { undo: Undo::start(copies(&a.revert)), applied: a }
                } else {
                    RevertPhase::Forget(a)
                }
            },
            RevertPhase::Back { undo, applied } => match undo.after(ok) {
                AfterUndo::More(v) => RevertPhase::Back { undo: v, applied },
                AfterUndo::Undone => RevertPhase::Forget(applied),
                AfterUndo::Stuck(left) => RevertPhase::Failed(
                    ApplyError::Stranded {
                        failed: String::from_str("rollback"),
                        remaining: left,
                    },
                ),
            },
            RevertPhase::Forget(a) => RevertPhase::Over(a),
            RevertPhase::Over(a) => RevertPhase::Over(a),
            RevertPhase::Failed(e) => RevertPhase::Failed(e),
        };
        Reverting { opts, phase: next }
    }

    /// What came of it, or the task itself where it is not over.
    pub fn finish(self) -> (r: Result<Result<Applied, ApplyError>, Reverting>)
        ensures
            match r {
                Ok(end) => self@.end() == Some(end_view(end)),
                Err(task) => self@.end() is None && task@ == self@,
            },
    {
        let Reverting { opts, phase } = self;
        match phase {
            RevertPhase::Over(a) => Ok(Ok(a)),
            RevertPhase::Failed(e) => Ok(Err(e)),
            other => Err(Reverting { opts, phase: other }),
        }
    }
}

// ---------------------------------------------------------------------------
// Confirming
// ---------------------------------------------------------------------------

/// Where confirming stands.
#[derive(Debug)]
enum ConfirmPhase {
    /// Read the record.
    Read,
    /// Stop the switch.
    Quiet(Applied),
    /// Record that it is stopped.
    Note(Applied),
    /// Nothing is left to do.
    Over(Applied),
    /// Nothing is left to do.
    Failed(ApplyError),
}

/// What such a phase says.
pub enum ConfirmPhaseView {
    Read,
    Quiet(AppliedView),
    Note(AppliedView),
    Over(AppliedView),
    Failed(ErrorView),
}

impl View for ConfirmPhase {
    type V = ConfirmPhaseView;

    closed spec fn view(&self) -> ConfirmPhaseView {
        match *self {
            ConfirmPhase::Read => ConfirmPhaseView::Read,
            ConfirmPhase::Quiet(a) => ConfirmPhaseView::Quiet(a@),
            ConfirmPhase::Note(a) => ConfirmPhaseView::Note(a@),
            ConfirmPhase::Over(a) => ConfirmPhaseView::Over(a@),
            ConfirmPhase::Failed(e) => ConfirmPhaseView::Failed(e@),
        }
    }
}

/// A policy that is being kept.
#[derive(Debug)]
pub struct Confirming {
    opts: Options,
    phase: ConfirmPhase,
}

/// What a [`Confirming`] says.
pub struct ConfirmingView {
    pub opts: OptionsView,
    pub phase: ConfirmPhaseView,
}

impl View for Confirming {
    type V = ConfirmingView;

    closed spec fn view(&self) -> ConfirmingView {
        ConfirmingView { opts: self.opts@, phase: self.phase@ }
    }
}

impl ConfirmingView {
    pub open spec fn at(self, phase: ConfirmPhaseView) -> ConfirmingView {
        ConfirmingView { opts: self.opts, phase }
    }

    /// What has to be done next.
    pub open spec fn action(self) -> Option<ActionView> {
        match self.phase {
            ConfirmPhaseView::Read => Some(ActionView::Read { path: state_file(self.opts) }),
            ConfirmPhaseView::Quiet(_) => Some(disarm_action(self.opts.netns)),
            ConfirmPhaseView::Note(a) => Some(write_action(self.opts, a)),
            ConfirmPhaseView::Over(_) => None,
            ConfirmPhaseView::Failed(_) => None,
        }
    }

    /// Where confirming stands after an outcome.
    pub open spec fn next(self, o: OutcomeView) -> ConfirmPhaseView {
        match self.phase {
            ConfirmPhaseView::Read => match o {
                OutcomeView::Text(t) => ConfirmPhaseView::Quiet(record_of(t)),
                OutcomeView::Done => ConfirmPhaseView::Quiet(record_of(""@)),
                _ => ConfirmPhaseView::Failed(ErrorView::Io(o.reason())),
            },
            ConfirmPhaseView::Quiet(a) => match o {
                OutcomeView::Error(e) => ConfirmPhaseView::Failed(ErrorView::Io(e)),
                _ => ConfirmPhaseView::Note(AppliedView { revert: a.revert, deadman: false }),
            },
            ConfirmPhaseView::Note(a) => if o.worked() {
                ConfirmPhaseView::Over(a)
            } else {
                ConfirmPhaseView::Failed(ErrorView::Io(o.reason()))
            },
            ConfirmPhaseView::Over(a) => ConfirmPhaseView::Over(a),
            ConfirmPhaseView::Failed(e) => ConfirmPhaseView::Failed(e),
        }
    }

    /// What came of it, once nothing is left to do.
    pub open spec fn end(self) -> Option<EndView> {
        match self.phase {
            ConfirmPhaseView::Over(a) => Some(EndView::Good(a)),
            ConfirmPhaseView::Failed(e) => Some(EndView::Bad(e)),
            _ => None,
        }
    }
}

/// Cancel the dead-man switch, keeping the policy.
pub fn confirm(opts: &Options) -> (r: Confirming)
    ensures
        r@ == (ConfirmingView { opts: opts@, phase: ConfirmPhaseView::Read }),
{
    Confirming { opts: opts.clone(), phase: ConfirmPhase::Read }
}

impl Confirming {
    /// What has to be done next; nothing once it is over.
    pub fn action(&self) -> (r: Option<Action>)
        ensures
            opt_action(r) == self@.action(),
    {
        match &self.phase {
            ConfirmPhase::Read => Some(Action::Read { path: state_path(&self.opts) }),
            ConfirmPhase::Quiet(_) => Some(disarm(borrow_opt(&self.opts.netns))),
            ConfirmPhase::Note(a) => Some(record(&self.opts, a)),
            ConfirmPhase::Over(_) => None,
            ConfirmPhase::Failed(_) => None,
        }
    }

    /// Go on after an outcome.
    pub fn advance(self, outcome: Outcome) -> (r: Confirming)
        ensures
            r@ == self@.at(self@.next(outcome@)),
    {
        let ok: bool = outcome.is_good();
        let Confirming { opts, phase } = self;
        let next: ConfirmPhase = match phase {
            ConfirmPhase::Read => match outcome {
                Outcome::Text(t) => ConfirmPhase::Quiet(Applied::parse(t.as_str())),
                Outcome::Done => ConfirmPhase::Quiet(Applied::parse("")),
                other => ConfirmPhase::Failed(ApplyError::Io(other.why())),
            },
            ConfirmPhase::Quiet(a) => match outcome {
                Outcome::Error(e) => ConfirmPhase::Failed(ApplyError::Io(e)),
                _ => ConfirmPhase::Note(Applied { revert: a.revert, deadman: false }),
            },
            ConfirmPhase::Note(a) => if ok {
                ConfirmPhase::Over(a)
            } else {
                ConfirmPhase::Failed(ApplyError::Io(outcome.why()))
            },
            ConfirmPhase::Over(a) => ConfirmPhase::Over(a),
            ConfirmPhase::Failed(e) => ConfirmPhase::Failed(e),
        };
        Confirming { opts, phase: next }
    }

    /// What came of it, or the task itself where it is not over.
    pub fn finish(self) -> (r: Result<Result<Applied, ApplyError>, Confirming>)
        ensures
            match r {
                Ok(end) => self@.end() == Some(end_view(end)),
                Err(task) => self@.end() is None && task@ == self@,
            },
    {
        let Confirming { opts, phase } = self;
        match phase {
            ConfirmPhase::Over(a) => Ok(Ok(a)),
            ConfirmPhase::Failed(e) => Ok(Err(e)),
            other => Err(Confirming { opts, phase: other }),
        }
    }
}

// ---------------------------------------------------------------------------
// Laws
// ---------------------------------------------------------------------------

/// Something that was done to the machine, and how it went.
pub struct Deed {
    pub action: ActionView,
    pub outcome: OutcomeView,
}

/// Where applying stands after some outcomes.
pub open spec fn after(t: ApplyingView, outs: Seq<OutcomeView>) -> ApplyingView
    decreases outs.len(),
{
    if outs.len() == 0 {
        t
    } else {
        let u = after(t, outs.drop_last());
        u.at(u.next(outs.last()))
    }
}

/// What was done to the machine on the way.
pub open spec fn deeds(t: ApplyingView, outs: Seq<OutcomeView>) -> Seq<Deed>
    decreases outs.len(),
{
    if outs.len() == 0 {
        seq![]
    } else {
        let before = deeds(t, outs.drop_last());
        match after(t, outs.drop_last()).action() {
            Some(action) => before.push(Deed { action, outcome: outs.last() }),
            None => before,
        }
    }
}

/// Whether the last things done were to run these commands, in order.
pub open spec fn ran(ds: Seq<Deed>, ns: Option<Seq<char>>, cmds: Seq<Seq<char>>) -> bool {
    &&& ds.len() >= cmds.len()
    &&& forall|k: int|
        0 <= k < cmds.len() ==> (#[trigger] ds[ds.len() - cmds.len() + k]).action == run_action(
            ns,
            cmds[k],
        )
}

/// Whether the last so many things done all worked.
pub open spec fn all_worked(ds: Seq<Deed>, n: nat) -> bool {
    ds.len() >= n && forall|k: int|
        ds.len() - n <= k < ds.len() ==> (#[trigger] ds[k]).outcome.worked()
}

/// Whether the last so many things done all failed.
pub open spec fn all_failed(ds: Seq<Deed>, n: nat) -> bool {
    ds.len() >= n && forall|k: int|
        ds.len() - n <= k < ds.len() ==> !(#[trigger] ds[k]).outcome.worked()
}

/// Whether a ruleset was loaded.
pub open spec fn ever_loaded(ds: Seq<Deed>) -> bool {
    exists|k: int| 0 <= k < ds.len() && loads(#[trigger] ds[k])
}

pub open spec fn loads(d: Deed) -> bool {
    d.action is Load && d.outcome.worked()
}

/// Whether this very record was written.
pub open spec fn ever_recorded(ds: Seq<Deed>, opts: OptionsView, a: AppliedView) -> bool {
    exists|k: int| 0 <= k < ds.len() && records(#[trigger] ds[k], opts, a)
}

pub open spec fn records(d: Deed, opts: OptionsView, a: AppliedView) -> bool {
    d.action == write_action(opts, a) && d.outcome.worked()
}

/// Whether a record was begun, however that went.
pub open spec fn ever_written(ds: Seq<Deed>) -> bool {
    exists|k: int| 0 <= k < ds.len() && (#[trigger] ds[k]).action is Write
}

/// Whether a dead-man switch was armed and has not been stopped since.
pub open spec fn counting(ds: Seq<Deed>, opts: OptionsView, revert: Seq<Seq<char>>) -> bool
    decreases ds.len(),
{
    if ds.len() == 0 || ds.last().action == disarm_action(opts.netns) {
        false
    } else {
        (ds.last().action == arm_action(opts, revert) && ds.last().outcome.worked()) || counting(
            ds.drop_last(),
            opts,
            revert,
        )
    }
}

/// Whether everything that undoes a plan was tried, with at most the removal of
/// the record behind it. Where a ruleset was loaded, its table is among it; where
/// a record was begun, its removal is behind it.
pub open spec fn undone(ds: Seq<Deed>, opts: OptionsView, revert: Seq<Seq<char>>) -> bool {
    exists|loaded: bool, extra: int|
        #![trigger undo_list(revert, loaded), ds.take(ds.len() - extra)]
        0 <= extra <= 1 && extra <= ds.len() && (ever_loaded(ds) ==> loaded) && (ever_written(ds)
            ==> extra == 1) && ran(
            ds.take(ds.len() - extra),
            opts.netns,
            undo_list(revert, loaded),
        ) && (extra == 1 ==> ds.last().action == forget_action(opts))
}

/// What is known of an undo on its way through a list.
spec fn undo_stands(
    u: UndoView,
    cmds: Seq<Seq<char>>,
    i: int,
    ds: Seq<Deed>,
    ns: Option<Seq<char>>,
) -> bool {
    &&& 0 <= i < cmds.len()
    &&& u.now == cmds[i]
    &&& u.rest == cmds.skip(i + 1)
    &&& ran(ds, ns, cmds.take(i))
    &&& !u.worked ==> u.left == cmds.take(i) && all_failed(ds, i as nat)
}

/// What is known of applying at every step.
spec fn story(t: ApplyingView, ds: Seq<Deed>) -> bool {
    let ns = t.opts.netns;
    let ip = t.plan.ip;
    let revert = t.plan.revert;
    match t.phase {
        PhaseView::Rehearse => ds.len() == 0,
        PhaseView::Look | PhaseView::Quiet(_) | PhaseView::Clear(_) | PhaseView::Forget => {
            untouched(ds, t.opts, revert)
        },
        PhaseView::Route { now, rest } => untouched(ds, t.opts, revert) && on_route(
            now,
            rest,
            ip,
            ds,
            ns,
        ),
        PhaseView::Load => untouched(ds, t.opts, revert) && ran(ds, ns, ip) && all_worked(
            ds,
            ip.len(),
        ),
        PhaseView::Still | PhaseView::Arm => ever_loaded(ds) && !ever_written(ds) && !counting(
            ds,
            t.opts,
            revert,
        ),
        PhaseView::Note(deadman) => ever_loaded(ds) && counting(ds, t.opts, revert) == deadman,
        PhaseView::Dial { deadman, .. } => ever_loaded(ds) && ever_recorded(
            ds,
            t.opts,
            t.applied(deadman),
        ) && counting(ds, t.opts, revert) == deadman,
        PhaseView::Hush(why) => !(why is Stranded) && !(why is Refused),
        PhaseView::Back { undo, why, forget } => !(why is Stranded) && !(why is Refused)
            && on_the_way_back(undo, revert, ds, ns) && (ever_written(ds) ==> forget) && !counting(
            ds,
            t.opts,
            revert,
        ),
        PhaseView::Erase(why) => !(why is Stranded) && !(why is Refused) && just_undone(
            ds,
            ns,
            revert,
        ) && !counting(ds, t.opts, revert),
        PhaseView::Applied(a) => t.opts.dry_run || (ever_loaded(ds) && ever_recorded(ds, t.opts, a)
            && a.revert == revert && counting(ds, t.opts, revert) == a.deadman),
        PhaseView::Failed(why) => !counting(ds, t.opts, revert) && match why {
            ErrorView::Refused(_) => ds.len() == 0,
            ErrorView::Stranded { remaining, .. } => {
                &&& remaining == undo_list(revert, true) || remaining == undo_list(revert, false)
                &&& ran(ds, ns, remaining)
                &&& all_failed(ds, remaining.len())
            },
            _ => undone(ds, t.opts, revert),
        },
    }
}

/// Whether nothing of a plan has taken effect yet.
spec fn untouched(ds: Seq<Deed>, opts: OptionsView, revert: Seq<Seq<char>>) -> bool {
    !ever_loaded(ds) && !ever_written(ds) && !counting(ds, opts, revert)
}

spec fn routing_stands(
    now: Seq<char>,
    rest: Seq<Seq<char>>,
    ip: Seq<Seq<char>>,
    i: int,
    ds: Seq<Deed>,
    ns: Option<Seq<char>>,
) -> bool {
    &&& 0 <= i < ip.len()
    &&& now == ip[i]
    &&& rest == ip.skip(i + 1)
    &&& ran(ds, ns, ip.take(i))
    &&& all_worked(ds, i as nat)
}

spec fn on_route(
    now: Seq<char>,
    rest: Seq<Seq<char>>,
    ip: Seq<Seq<char>>,
    ds: Seq<Deed>,
    ns: Option<Seq<char>>,
) -> bool {
    exists|i: int| #[trigger] routing_stands(now, rest, ip, i, ds, ns)
}

spec fn on_the_way_back(
    u: UndoView,
    revert: Seq<Seq<char>>,
    ds: Seq<Deed>,
    ns: Option<Seq<char>>,
) -> bool {
    exists|loaded: bool, i: int| #[trigger] back_stands(u, revert, loaded, i, ds, ns)
}

spec fn under_way(
    u: UndoView,
    cmds: Seq<Seq<char>>,
    ds: Seq<Deed>,
    ns: Option<Seq<char>>,
) -> bool {
    exists|i: int| #[trigger] undo_stands(u, cmds, i, ds, ns)
}

spec fn just_undone(ds: Seq<Deed>, ns: Option<Seq<char>>, revert: Seq<Seq<char>>) -> bool {
    exists|loaded: bool|
        (ever_loaded(ds) ==> loaded) && ran(ds, ns, #[trigger] undo_list(revert, loaded))
}

spec fn back_stands(
    u: UndoView,
    revert: Seq<Seq<char>>,
    loaded: bool,
    i: int,
    ds: Seq<Deed>,
    ns: Option<Seq<char>>,
) -> bool {
    (ever_loaded(ds) ==> loaded) && undo_stands(u, undo_list(revert, loaded), i, ds, ns)
}

proof fn lemma_ran_push(ds: Seq<Deed>, ns: Option<Seq<char>>, cmds: Seq<Seq<char>>, i: int, d: Deed)
    requires
        0 <= i < cmds.len(),
        ran(ds, ns, cmds.take(i)),
        d.action == run_action(ns, cmds[i]),
    ensures
        ran(ds.push(d), ns, cmds.take(i + 1)),
{
    let a = cmds.take(i);
    let b = cmds.take(i + 1);
    let es = ds.push(d);
    assert forall|k: int| 0 <= k < b.len() implies (#[trigger] es[es.len() - b.len() + k]).action
        == run_action(ns, b[k]) by {
        if k < i {
            assert(es[es.len() - b.len() + k] == ds[ds.len() - a.len() + k]);
            assert(a[k] == b[k]);
        }
    }
}

proof fn lemma_loaded_push(ds: Seq<Deed>, d: Deed)
    ensures
        ever_loaded(ds.push(d)) <==> ever_loaded(ds) || loads(d),
{
    let es = ds.push(d);
    if ever_loaded(ds) {
        let k = choose|k: int| 0 <= k < ds.len() && loads(#[trigger] ds[k]);
        assert(es[k] == ds[k]);
    }
    if loads(d) {
        assert(es[ds.len() as int] == d);
    }
    if ever_loaded(es) {
        let k = choose|k: int| 0 <= k < es.len() && loads(#[trigger] es[k]);
        if k < ds.len() {
            assert(ds[k] == es[k]);
        }
    }
}

proof fn lemma_written_push(ds: Seq<Deed>, d: Deed)
    ensures
        ever_written(ds.push(d)) <==> ever_written(ds) || d.action is Write,
{
    let es = ds.push(d);
    if ever_written(ds) {
        let k = choose|k: int| 0 <= k < ds.len() && (#[trigger] ds[k]).action is Write;
        assert(es[k] == ds[k]);
    }
    if d.action is Write {
        assert(es[ds.len() as int] == d);
    }
    if ever_written(es) {
        let k = choose|k: int| 0 <= k < es.len() && (#[trigger] es[k]).action is Write;
        if k < ds.len() {
            assert(ds[k] == es[k]);
        }
    }
}

/// No command that is split at its spaces arms a switch: what does has a space
/// in one of its words.
proof fn lemma_running_does_not_arm(opts: OptionsView, revert: Seq<Seq<char>>, cmd: Seq<char>)
    ensures
        run_action(opts.netns, cmd) != arm_action(opts, revert),
{
    let told = "--description=Throughline: undo the routing policy unless confirmed"@;
    let armed = arm_argv(opts.netns, revert, opts.deadman_secs);
    let run = argv_of(opts.netns, cmd);
    if run == armed {
        let front = entry(opts.netns);
        let k = front.len();
        assert(k <= 2 && armed.len() >= 8);
        assert(armed[4] == told);
        assert(run == front + words(cmd));
        assert(run[4] == words(cmd)[4 - k]);
        reveal_strlit("--description=Throughline: undo the routing policy unless confirmed");
        assert(told[26] == ' ');
        lemma_words_hold_no_space(cmd, 4 - k, 26);
    }
}

proof fn lemma_dialling_does_not_arm(opts: OptionsView, revert: Seq<Seq<char>>, target: Seq<char>)
    ensures
        (ActionView::Run { argv: dial_argv(opts.netns, target) }) != arm_action(opts, revert),
{
    let armed = arm_argv(opts.netns, revert, opts.deadman_secs);
    let dialled = dial_argv(opts.netns, target);
    if dialled == armed {
        reveal_strlit("systemd-run");
        reveal_strlit("nsenter");
        reveal_strlit("timeout");
        assert(armed[0] == "systemd-run"@);
        assert(dialled[0] == "nsenter"@ || dialled[0] == "timeout"@);
    }
}

/// What one more deed does to the switch.
proof fn lemma_counting_push(ds: Seq<Deed>, d: Deed, opts: OptionsView, revert: Seq<Seq<char>>)
    ensures
        counting(ds.push(d), opts, revert) <==> d.action != disarm_action(opts.netns) && ((d.action
            == arm_action(opts, revert) && d.outcome.worked()) || counting(ds, opts, revert)),
{
    assert(ds.push(d).drop_last() =~= ds);
}

proof fn lemma_recorded_push(ds: Seq<Deed>, d: Deed, opts: OptionsView, a: AppliedView)
    ensures
        ever_recorded(ds, opts, a) || records(d, opts, a) ==> ever_recorded(ds.push(d), opts, a),
{
    let es = ds.push(d);
    if ever_recorded(ds, opts, a) {
        let k = choose|k: int| 0 <= k < ds.len() && records(#[trigger] ds[k], opts, a);
        assert(es[k] == ds[k]);
    }
    if records(d, opts, a) {
        assert(es[ds.len() as int] == d);
    }
}

proof fn lemma_undone(ds: Seq<Deed>, opts: OptionsView, revert: Seq<Seq<char>>, loaded: bool)
    requires
        ever_loaded(ds) ==> loaded,
        !ever_written(ds),
        ran(ds, opts.netns, undo_list(revert, loaded)),
    ensures
        undone(ds, opts, revert),
{
    let whole = ds.take(ds.len() - 0);
    assert(whole =~= ds);
    assert(ran(whole, opts.netns, undo_list(revert, loaded)));
}

/// The routing begins.
proof fn lemma_routing(t: ApplyingView, ds: Seq<Deed>)
    requires
        untouched(ds, t.opts, t.plan.revert),
        t.phase == t.routing(t.plan.ip),
    ensures
        story(t, ds),
{
    let ip = t.plan.ip;
    if ip.len() > 0 {
        assert(ip.take(0) =~= Seq::<Seq<char>>::empty());
        assert(routing_stands(ip[0], ip.skip(1), ip, 0, ds, t.opts.netns));
        assert(on_route(ip[0], ip.skip(1), ip, ds, t.opts.netns));
    }
}

/// The undo of a failure begins.
proof fn lemma_backing(t: ApplyingView, ds: Seq<Deed>, loaded: bool, why: ErrorView, forget: bool)
    requires
        ever_loaded(ds) ==> loaded,
        ever_written(ds) ==> forget,
        !counting(ds, t.opts, t.plan.revert),
        !(why is Stranded),
        !(why is Refused),
        t.phase == t.backing(loaded, why, forget),
    ensures
        story(t, ds),
{
    let ns = t.opts.netns;
    let revert = t.plan.revert;
    let cmds = undo_list(revert, loaded);
    if cmds.len() > 0 {
        let u = UndoView::start(cmds);
        assert(cmds.take(0) =~= Seq::<Seq<char>>::empty());
        assert(back_stands(u, revert, loaded, 0, ds, ns));
        assert(on_the_way_back(u, revert, ds, ns));
    } else {
        assert(ran(ds, ns, cmds));
        assert(just_undone(ds, ns, revert));
        if !forget {
            lemma_undone(ds, t.opts, revert, loaded);
        }
    }
}

/// One more step of the undo of a failure.
proof fn lemma_back_step(t: ApplyingView, ds: Seq<Deed>, o: OutcomeView)
    requires
        t.phase is Back,
        story(t, ds),
    ensures
        story(t.at(t.next(o)), ds.push(Deed { action: t.action()->0, outcome: o })),
{
    let ns = t.opts.netns;
    let revert = t.plan.revert;
    let u = t.phase->undo;
    let why = t.phase->Back_why;
    let forget = t.phase->Back_forget;
    let (loaded, i) = choose|loaded: bool, i: int| #[trigger]
        back_stands(u, revert, loaded, i, ds, ns);
    let cmds = undo_list(revert, loaded);
    let d = Deed { action: t.action()->0, outcome: o };
    let es = ds.push(d);
    let next = t.at(t.next(o));
    lemma_ran_push(ds, ns, cmds, i, d);
    lemma_loaded_push(ds, d);
    lemma_written_push(ds, d);
    lemma_counting_push(ds, d, t.opts, revert);
    lemma_running_does_not_arm(t.opts, revert, u.now);
    assert(!loads(d));
    if u.rest.len() > 0 {
        let v = u.after(o.worked())->More_0;
        assert(v.now == cmds[i + 1]);
        assert(v.rest =~= cmds.skip(i + 2));
        if !v.worked {
            assert(cmds.take(i).push(cmds[i]) =~= cmds.take(i + 1));
            assert(all_failed(es, (i + 1) as nat)) by {
                assert forall|k: int| es.len() - (i + 1) <= k < es.len() implies !(
                #[trigger] es[k]).outcome.worked() by {
                    if k < ds.len() {
                        assert(es[k] == ds[k]);
                    }
                }
            }
        }
        assert(back_stands(v, revert, loaded, i + 1, es, ns));
        assert(on_the_way_back(v, revert, es, ns));
    } else {
        assert(i + 1 == cmds.len());
        assert(cmds.take(i + 1) =~= cmds);
        assert(ran(es, ns, cmds));
        if u.worked || o.worked() {
            assert(just_undone(es, ns, revert));
            if !forget {
                lemma_undone(es, t.opts, revert, loaded);
            }
        } else {
            assert(cmds.take(i).push(cmds[i]) =~= cmds);
            assert(all_failed(es, cmds.len())) by {
                assert forall|k: int| es.len() - cmds.len() <= k < es.len() implies !(
                #[trigger] es[k]).outcome.worked() by {
                    if k < ds.len() {
                        assert(es[k] == ds[k]);
                    }
                }
            }
        }
    }
}

/// One more step, wherever applying stands.
proof fn lemma_step(t: ApplyingView, ds: Seq<Deed>, o: OutcomeView)
    requires
        story(t, ds),
        t.action() is Some,
        t.phase is Rehearse ==> t.opts.dry_run,
    ensures
        story(t.at(t.next(o)), ds.push(Deed { action: t.action()->0, outcome: o })),
{
    let ns = t.opts.netns;
    let ip = t.plan.ip;
    let d = Deed { action: t.action()->0, outcome: o };
    let es = ds.push(d);
    let next = t.at(t.next(o));
    lemma_loaded_push(ds, d);
    lemma_written_push(ds, d);
    lemma_counting_push(ds, d, t.opts, t.plan.revert);
    match t.phase {
        PhaseView::Look => {
            if !(o is Text) {
                lemma_routing(next, es);
            }
        },
        PhaseView::Clear(u) => {
            lemma_running_does_not_arm(t.opts, t.plan.revert, u.now);
            if u.after(o.worked()) is Stuck {
                lemma_routing(next, es);
            }
        },
        PhaseView::Forget => {
            lemma_routing(next, es);
        },
        PhaseView::Route { now, rest } => {
            let i = choose|i: int| #[trigger] routing_stands(now, rest, ip, i, ds, ns);
            lemma_running_does_not_arm(t.opts, t.plan.revert, now);
            if o.worked() {
                lemma_ran_push(ds, ns, ip, i, d);
                assert(all_worked(es, (i + 1) as nat)) by {
                    assert forall|k: int| es.len() - (i + 1) <= k < es.len() implies (
                    #[trigger] es[k]).outcome.worked() by {
                        if k < ds.len() {
                            assert(es[k] == ds[k]);
                        }
                    }
                }
                if rest.len() > 0 {
                    assert(rest[0] == ip[i + 1]);
                    assert(rest.skip(1) =~= ip.skip(i + 2));
                    assert(routing_stands(rest[0], rest.skip(1), ip, i + 1, es, ns));
                    assert(on_route(rest[0], rest.skip(1), ip, es, ns));
                } else {
                    assert(i + 1 == ip.len());
                    assert(ip.take(i + 1) =~= ip);
                }
            } else {
                lemma_backing(
                    next,
                    es,
                    false,
                    ErrorView::RolledBack { failed: now, stderr: o.reason() },
                    false,
                );
            }
        },
        PhaseView::Load => {
            if !o.worked() {
                lemma_backing(
                    next,
                    es,
                    true,
                    ErrorView::RolledBack { failed: "nft -f -"@, stderr: o.reason() },
                    false,
                );
            }
        },
        PhaseView::Arm => {
            match o {
                OutcomeView::Failed(stderr) => {
                    lemma_backing(
                        next,
                        es,
                        true,
                        ErrorView::RolledBack {
                            failed: "systemd-run (dead-man switch)"@,
                            stderr,
                        },
                        false,
                    );
                },
                OutcomeView::Error(e) => {
                    lemma_backing(next, es, true, ErrorView::Io(e), false);
                },
                _ => {},
            }
        },
        PhaseView::Note(deadman) => {
            lemma_recorded_push(ds, d, t.opts, t.applied(deadman));
        },
        PhaseView::Dial { deadman, target } => {
            lemma_recorded_push(ds, d, t.opts, t.applied(deadman));
            lemma_dialling_does_not_arm(t.opts, t.plan.revert, target);
        },
        PhaseView::Hush(why) => {
            lemma_backing(next, es, true, why, true);
        },
        PhaseView::Back { .. } => {
            lemma_back_step(t, ds, o);
        },
        PhaseView::Erase(why) => {
            let loaded = choose|loaded: bool|
                (ever_loaded(ds) ==> loaded) && ran(
                    ds,
                    ns,
                    #[trigger] undo_list(t.plan.revert, loaded),
                );
            let shorter = es.take(es.len() - 1);
            assert(shorter =~= ds);
            assert(ran(shorter, ns, undo_list(t.plan.revert, loaded)));
            assert(undone(es, t.opts, t.plan.revert));
        },
        _ => {},
    }
}

proof fn lemma_story(t: ApplyingView, outs: Seq<OutcomeView>, refused: Seq<RefusalView>)
    requires
        t.phase == first_phase(refused, t.opts),
    ensures
        story(after(t, outs), deeds(t, outs)),
        after(t, outs).plan == t.plan,
        after(t, outs).opts == t.opts,
        after(t, outs).phase is Rehearse ==> t.opts.dry_run,
    decreases outs.len(),
{
    if outs.len() > 0 {
        let fewer = outs.drop_last();
        lemma_story(t, fewer, refused);
        let u = after(t, fewer);
        if u.action() is Some {
            lemma_step(u, deeds(t, fewer), outs.last());
        }
        lemma_never_rehearses_again(u, outs.last());
    }
}

proof fn lemma_never_rehearses_again(t: ApplyingView, o: OutcomeView)
    ensures
        !(t.next(o) is Rehearse),
{
}

/// The ruleset is loaded last: only once every routing command has been run, in
/// order, and each of them has worked, and never before in the same run.
pub proof fn the_ruleset_is_loaded_last(
    t: ApplyingView,
    outs: Seq<OutcomeView>,
    refused: Seq<RefusalView>,
)
    requires
        t.phase == first_phase(refused, t.opts),
        after(t, outs).phase is Load,
    ensures
        ran(deeds(t, outs), t.opts.netns, t.plan.ip),
        all_worked(deeds(t, outs), t.plan.ip.len()),
        !ever_loaded(deeds(t, outs)),
{
    lemma_story(t, outs, refused);
}

/// Whatever fails, everything that was done is taken back before the error is
/// reported: every command that undoes the plan is run, and where a ruleset was
/// loaded, its table is deleted too; where a record was begun, its removal is the
/// last thing done; and no switch is left counting. The one exception is the
/// error that says so.
pub proof fn a_failure_takes_everything_back(
    t: ApplyingView,
    outs: Seq<OutcomeView>,
    refused: Seq<RefusalView>,
    why: ErrorView,
)
    requires
        t.phase == first_phase(refused, t.opts),
        after(t, outs).end() == Some(EndView::Bad(why)),
        !(why is Stranded),
    ensures
        why is Refused ==> deeds(t, outs).len() == 0,
        !(why is Refused) ==> undone(deeds(t, outs), t.opts, t.plan.revert),
        ever_written(deeds(t, outs)) ==> deeds(t, outs).last().action == forget_action(t.opts),
        !counting(deeds(t, outs), t.opts, t.plan.revert),
{
    lemma_story(t, outs, refused);
}

/// Who is left stranded is told everything that remains to be done: all the
/// steps of the undo were tried, none of them worked, and all are listed.
pub proof fn the_stranded_are_told_what_remains(
    t: ApplyingView,
    outs: Seq<OutcomeView>,
    refused: Seq<RefusalView>,
    failed: Seq<char>,
    remaining: Seq<Seq<char>>,
)
    requires
        t.phase == first_phase(refused, t.opts),
        after(t, outs).end() == Some(EndView::Bad(ErrorView::Stranded { failed, remaining })),
    ensures
        ran(deeds(t, outs), t.opts.netns, remaining),
        all_failed(deeds(t, outs), remaining.len()),
        remaining == undo_list(t.plan.revert, true) || remaining == undo_list(
            t.plan.revert,
            false,
        ),
{
    lemma_story(t, outs, refused);
}

/// A plan is reported as applied only where its ruleset was loaded and exactly
/// what undoes it was recorded, unless this was a rehearsal. It is said to be
/// guarded by a switch exactly where one was armed and is still counting.
pub proof fn what_is_applied_is_loaded_and_recorded(
    t: ApplyingView,
    outs: Seq<OutcomeView>,
    refused: Seq<RefusalView>,
    a: AppliedView,
)
    requires
        t.phase == first_phase(refused, t.opts),
        after(t, outs).end() == Some(EndView::Good(a)),
        !t.opts.dry_run,
    ensures
        ever_loaded(deeds(t, outs)),
        ever_recorded(deeds(t, outs), t.opts, a),
        a.revert == t.plan.revert,
        a.deadman <==> counting(deeds(t, outs), t.opts, t.plan.revert),
{
    lemma_story(t, outs, refused);
}

/// A rehearsal only shows what would be done.
pub proof fn a_rehearsal_only_prints(
    t: ApplyingView,
    outs: Seq<OutcomeView>,
    refused: Seq<RefusalView>,
    k: int,
)
    requires
        t.phase == first_phase(refused, t.opts),
        t.opts.dry_run,
        0 <= k < deeds(t, outs).len(),
    ensures
        deeds(t, outs)[k].action is Print,
    decreases outs.len(),
{
    lemma_rehearsal(t, outs, refused);
    let fewer = outs.drop_last();
    if k < deeds(t, fewer).len() {
        a_rehearsal_only_prints(t, fewer, refused, k);
    } else {
        lemma_rehearsal(t, fewer, refused);
    }
}

proof fn lemma_rehearsal(t: ApplyingView, outs: Seq<OutcomeView>, refused: Seq<RefusalView>)
    requires
        t.phase == first_phase(refused, t.opts),
        t.opts.dry_run,
    ensures
        after(t, outs).phase is Rehearse || after(t, outs).phase is Applied || after(
            t,
            outs,
        ).phase is Failed,
    decreases outs.len(),
{
    if outs.len() > 0 {
        lemma_rehearsal(t, outs.drop_last(), refused);
    }
}

/// Where reverting stands after some outcomes.
pub open spec fn after_revert(t: RevertingView, outs: Seq<OutcomeView>) -> RevertingView
    decreases outs.len(),
{
    if outs.len() == 0 {
        t
    } else {
        let u = after_revert(t, outs.drop_last());
        u.at(u.next(outs.last()))
    }
}

/// What was done to the machine on the way.
pub open spec fn revert_deeds(t: RevertingView, outs: Seq<OutcomeView>) -> Seq<Deed>
    decreases outs.len(),
{
    if outs.len() == 0 {
        seq![]
    } else {
        let before = revert_deeds(t, outs.drop_last());
        match after_revert(t, outs.drop_last()).action() {
            Some(action) => before.push(Deed { action, outcome: outs.last() }),
            None => before,
        }
    }
}

spec fn revert_story(t: RevertingView, ds: Seq<Deed>) -> bool {
    let ns = t.opts.netns;
    match t.phase {
        RevertPhaseView::Back { undo, applied } => under_way(undo, applied.revert, ds, ns),
        RevertPhaseView::Forget(a) => ran(ds, ns, a.revert),
        RevertPhaseView::Over(a) => ds.len() > 0 && ran(ds.drop_last(), ns, a.revert)
            && ds.last().action == forget_action(t.opts),
        _ => true,
    }
}

proof fn lemma_revert_story(t: RevertingView, outs: Seq<OutcomeView>)
    requires
        t.phase is Read,
    ensures
        revert_story(after_revert(t, outs), revert_deeds(t, outs)),
        after_revert(t, outs).opts == t.opts,
    decreases outs.len(),
{
    if outs.len() > 0 {
        let fewer = outs.drop_last();
        lemma_revert_story(t, fewer);
        let u = after_revert(t, fewer);
        let ds = revert_deeds(t, fewer);
        let o = outs.last();
        let ns = u.opts.netns;
        if u.action() is Some {
            let d = Deed { action: u.action()->0, outcome: o };
            let es = ds.push(d);
            assert(es.drop_last() =~= ds);
            match u.phase {
                RevertPhaseView::Quiet(a) => {
                    assert(a.revert.take(0) =~= Seq::<Seq<char>>::empty());
                    if a.revert.len() > 0 {
                        assert(undo_stands(UndoView::start(a.revert), a.revert, 0, es, ns));
                        assert(under_way(UndoView::start(a.revert), a.revert, es, ns));
                    }
                },
                RevertPhaseView::Back { undo, applied } => {
                    let cmds = applied.revert;
                    let i = choose|i: int| #[trigger] undo_stands(undo, cmds, i, ds, ns);
                    lemma_ran_push(ds, ns, cmds, i, d);
                    if undo.rest.len() > 0 {
                        let v = undo.after(o.worked())->More_0;
                        assert(v.now == cmds[i + 1]);
                        assert(v.rest =~= cmds.skip(i + 2));
                        if !v.worked {
                            assert(cmds.take(i).push(cmds[i]) =~= cmds.take(i + 1));
                            assert forall|k: int| es.len() - (i + 1) <= k < es.len() implies !(
                            #[trigger] es[k]).outcome.worked() by {
                                if k < ds.len() {
                                    assert(es[k] == ds[k]);
                                }
                            }
                        }
                        assert(undo_stands(v, cmds, i + 1, es, ns));
                        assert(under_way(v, cmds, es, ns));
                    } else {
                        assert(cmds.take(i + 1) =~= cmds);
                    }
                },
                _ => {},
            }
        }
    }
}

/// A policy is reported as reverted only once every command of its record has
/// been run, in order, and the record itself is removed after that.
pub proof fn what_is_reverted_was_undone(
    t: RevertingView,
    outs: Seq<OutcomeView>,
    a: AppliedView,
)
    requires
        t.phase is Read,
        after_revert(t, outs).end() == Some(EndView::Good(a)),
    ensures
        revert_deeds(t, outs).len() > 0,
        ran(revert_deeds(t, outs).drop_last(), t.opts.netns, a.revert),
        revert_deeds(t, outs).last().action == forget_action(t.opts),
{
    lemma_revert_story(t, outs);
}

/// Confirming keeps the way back and stops the switch.
pub proof fn confirming_keeps_the_way_back(t: ConfirmingView, record: Seq<char>, o: OutcomeView)
    requires
        t.phase is Read,
        !(o is Error),
    ensures
        ({
            let read = t.at(t.next(OutcomeView::Text(record)));
            let quiet = read.at(read.next(o));
            let noted = quiet.at(quiet.next(OutcomeView::Done));
            &&& read.action() == Some(disarm_action(t.opts.netns))
            &&& noted.end() == Some(
                EndView::Good(
                    AppliedView { revert: record_of(record).revert, deadman: false },
                ),
            )
        }),
{
}

// ---------------------------------------------------------------------------
// The same, step by step
// ---------------------------------------------------------------------------

/// Whether a deed failed, for this reason.
pub open spec fn failed_for(d: Deed, reason: Seq<char>) -> bool {
    !d.outcome.worked() && d.outcome.reason() == reason
}

/// Whether something that was done is to blame for an error: it failed, and the
/// error says what it was and why it failed.
pub open spec fn to_blame(d: Deed, why: ErrorView, t: ApplyingView) -> bool {
    let ns = t.opts.netns;
    match why {
        ErrorView::RolledBack { failed, stderr } => failed_for(d, stderr) && (d.action == run_action(
            ns,
            failed,
        ) || (failed == "nft -f -"@ && d.action == ActionView::Load {
            argv: argv_of(ns, "nft -f -"@),
            input: t.plan.nft,
        }) || (failed == "systemd-run (dead-man switch)"@ && d.action == arm_action(
            t.opts,
            t.plan.revert,
        ))),
        ErrorView::VerificationFailed { target, detail } => t.opts.verify == Some(target)
            && d.action == (ActionView::Run { argv: dial_argv(ns, target) })
            && !d.outcome.worked() && (detail == d.outcome.reason() || detail == trim(
            d.outcome.reason(),
        )),
        ErrorView::Io(e) => failed_for(d, e) && (d.action is Write || d.action == arm_action(
            t.opts,
            t.plan.revert,
        )),
        _ => false,
    }
}

pub open spec fn somebody_is_to_blame(ds: Seq<Deed>, why: ErrorView, t: ApplyingView) -> bool {
    exists|k: int| 0 <= k < ds.len() && to_blame(#[trigger] ds[k], why, t)
}

proof fn lemma_blame_push(ds: Seq<Deed>, d: Deed, why: ErrorView, t: ApplyingView)
    requires
        somebody_is_to_blame(ds, why, t) || to_blame(d, why, t),
    ensures
        somebody_is_to_blame(ds.push(d), why, t),
{
    let es = ds.push(d);
    if somebody_is_to_blame(ds, why, t) {
        let k = choose|k: int| 0 <= k < ds.len() && to_blame(#[trigger] ds[k], why, t);
        assert(es[k] == ds[k]);
    } else {
        assert(es[ds.len() as int] == d);
    }
}

/// What else is known of applying at every step.
spec fn tale(t: ApplyingView, ds: Seq<Deed>) -> bool {
    match t.phase {
        PhaseView::Still | PhaseView::Arm => t.opts.deadman_secs > 0,
        PhaseView::Note(d) => d == (t.opts.deadman_secs > 0),
        PhaseView::Dial { deadman, target } => deadman == (t.opts.deadman_secs > 0)
            && t.opts.verify == Some(target),
        PhaseView::Hush(why) => somebody_is_to_blame(ds, why, t),
        PhaseView::Back { why, .. } => somebody_is_to_blame(ds, why, t),
        PhaseView::Erase(why) => somebody_is_to_blame(ds, why, t),
        PhaseView::Applied(a) => t.opts.dry_run || (a.deadman == (t.opts.deadman_secs > 0) && (
        t.opts.verify matches Some(target) ==> ds.len() > 0 && ds.last().outcome.worked()
            && ds.last().action == (ActionView::Run { argv: dial_argv(t.opts.netns, target) }))),
        PhaseView::Failed(why) => why is Refused || why is Stranded || somebody_is_to_blame(
            ds,
            why,
            t,
        ),
        _ => true,
    }
}

#[verifier::spinoff_prover]
#[verifier::rlimit(60)]
proof fn lemma_tale_step(t: ApplyingView, ds: Seq<Deed>, o: OutcomeView)
    requires
        tale(t, ds),
        t.action() is Some,
        t.phase is Rehearse ==> t.opts.dry_run,
    ensures
        tale(t.at(t.next(o)), ds.push(Deed { action: t.action()->0, outcome: o })),
{
    let d = Deed { action: t.action()->0, outcome: o };
    let es = ds.push(d);
    let next = t.at(t.next(o));
    match t.phase {
        PhaseView::Route { now, .. } => {
            if !o.worked() {
                let why = ErrorView::RolledBack { failed: now, stderr: o.reason() };
                lemma_blame_push(ds, d, why, next);
            }
        },
        PhaseView::Load => {
            if !o.worked() {
                let why = ErrorView::RolledBack { failed: "nft -f -"@, stderr: o.reason() };
                lemma_blame_push(ds, d, why, next);
            }
        },
        PhaseView::Arm => {
            match o {
                OutcomeView::Failed(stderr) => {
                    let why = ErrorView::RolledBack {
                        failed: "systemd-run (dead-man switch)"@,
                        stderr,
                    };
                    lemma_blame_push(ds, d, why, next);
                },
                OutcomeView::Error(e) => {
                    lemma_blame_push(ds, d, ErrorView::Io(e), next);
                },
                _ => {},
            }
        },
        PhaseView::Note(_) => {
            if !o.worked() {
                lemma_blame_push(ds, d, ErrorView::Io(o.reason()), next);
            }
        },
        PhaseView::Dial { target, .. } => {
            match o {
                OutcomeView::Failed(stderr) => {
                    lemma_blame_push(
                        ds,
                        d,
                        ErrorView::VerificationFailed { target, detail: trim(stderr) },
                        next,
                    );
                },
                OutcomeView::Error(e) => {
                    lemma_blame_push(
                        ds,
                        d,
                        ErrorView::VerificationFailed { target, detail: e },
                        next,
                    );
                },
                _ => {},
            }
        },
        PhaseView::Hush(why) => {
            lemma_same_blame(t, next, ds, why);
            lemma_blame_push(ds, d, why, next);
        },
        PhaseView::Back { why, .. } => {
            lemma_same_blame(t, next, ds, why);
            lemma_blame_push(ds, d, why, next);
        },
        PhaseView::Erase(why) => {
            lemma_same_blame(t, next, ds, why);
            lemma_blame_push(ds, d, why, next);
        },
        _ => {},
    }
}

proof fn lemma_same_blame(t: ApplyingView, u: ApplyingView, ds: Seq<Deed>, why: ErrorView)
    requires
        t.plan == u.plan,
        t.opts == u.opts,
        somebody_is_to_blame(ds, why, t),
    ensures
        somebody_is_to_blame(ds, why, u),
{
    let k = choose|k: int| 0 <= k < ds.len() && to_blame(#[trigger] ds[k], why, t);
    assert(to_blame(ds[k], why, u));
}

proof fn lemma_tale(t: ApplyingView, outs: Seq<OutcomeView>, refused: Seq<RefusalView>)
    requires
        t.phase == first_phase(refused, t.opts),
    ensures
        tale(after(t, outs), deeds(t, outs)),
        after(t, outs).plan == t.plan,
        after(t, outs).opts == t.opts,
    decreases outs.len(),
{
    if outs.len() > 0 {
        let fewer = outs.drop_last();
        lemma_tale(t, fewer, refused);
        lemma_story(t, fewer, refused);
        let u = after(t, fewer);
        if u.action() is Some {
            lemma_tale_step(u, deeds(t, fewer), outs.last());
        }
    }
}

/// A plan is reported as applied with a switch exactly where one was asked for;
/// and where a check was asked for, the last thing done was to open that very
/// connection, and it opened.
pub proof fn what_was_asked_for_was_done(
    t: ApplyingView,
    outs: Seq<OutcomeView>,
    refused: Seq<RefusalView>,
    a: AppliedView,
)
    requires
        t.phase == first_phase(refused, t.opts),
        after(t, outs).end() == Some(EndView::Good(a)),
        !t.opts.dry_run,
    ensures
        a.deadman <==> t.opts.deadman_secs > 0,
        t.opts.verify matches Some(target) ==> deeds(t, outs).len() > 0 && deeds(
            t,
            outs,
        ).last().outcome.worked() && deeds(t, outs).last().action == (ActionView::Run {
            argv: dial_argv(t.opts.netns, target),
        }),
{
    lemma_tale(t, outs, refused);
}

/// An error names what failed and why: among the things done there is one that
/// failed in just that way.
pub proof fn an_error_names_what_failed(
    t: ApplyingView,
    outs: Seq<OutcomeView>,
    refused: Seq<RefusalView>,
    why: ErrorView,
)
    requires
        t.phase == first_phase(refused, t.opts),
        after(t, outs).end() == Some(EndView::Bad(why)),
        !(why is Refused),
        !(why is Stranded),
    ensures
        somebody_is_to_blame(deeds(t, outs), why, t),
{
    lemma_tale(t, outs, refused);
    lemma_same_blame(after(t, outs), t, deeds(t, outs), why);
}

/// A plan is refused for exactly what is wrong with it, and only where something
/// is.
pub proof fn a_refusal_gives_its_reasons(
    t: ApplyingView,
    outs: Seq<OutcomeView>,
    refused: Seq<RefusalView>,
    r: Seq<RefusalView>,
)
    requires
        t.phase == first_phase(refused, t.opts),
    ensures
        after(t, outs).end() == Some(EndView::Bad(ErrorView::Refused(r))) ==> r == refused
            && refused.len() > 0,
        refused.len() > 0 ==> after(t, outs).end() == Some(EndView::Bad(ErrorView::Refused(refused)))
            && deeds(t, outs).len() == 0,
    decreases outs.len(),
{
    if outs.len() > 0 {
        let fewer = outs.drop_last();
        a_refusal_gives_its_reasons(t, fewer, refused, r);
        lemma_tale(t, fewer, refused);
        let u = after(t, fewer);
        lemma_no_new_refusal(u, outs.last());
    }
}

proof fn lemma_no_new_refusal(t: ApplyingView, o: OutcomeView)
    ensures
        t.next(o) matches PhaseView::Failed(ErrorView::Refused(r)) ==> t.phase == t.next(o)
            || refusal_under_way(t, r),
{
}

/// Whether a refusal is what a failure is being undone for, which it never is.
spec fn refusal_under_way(t: ApplyingView, r: Seq<RefusalView>) -> bool {
    match t.phase {
        PhaseView::Hush(why) => why == ErrorView::Refused(r),
        PhaseView::Back { why, .. } => why == ErrorView::Refused(r),
        PhaseView::Erase(why) => why == ErrorView::Refused(r),
        _ => false,
    }
}

/// Where something is applied already, the switch is stopped and then everything
/// of its record is undone, in order, before anything of the new plan is done.
#[verifier::spinoff_prover]
#[verifier::rlimit(60)]
pub proof fn what_is_applied_already_is_taken_out_first(
    t: ApplyingView,
    outs: Seq<OutcomeView>,
    record: Seq<char>,
    i: int,
)
    requires
        t.phase is Look,
        outs.len() >= 2 + record_of(record).revert.len(),
        outs[0] == OutcomeView::Text(record),
        0 <= i < record_of(record).revert.len(),
    ensures
        deeds(t, outs.take(2 + i)).len() == 2 + i,
        after(t, outs.take(2 + i)).action() == Some(
            run_action(t.opts.netns, record_of(record).revert[i]),
        ),
        after(t, outs.take(1)).action() == Some(disarm_action(t.opts.netns)),
    decreases i,
{
    let cmds = record_of(record).revert;
    let zero = outs.take(0);
    let one = outs.take(1);
    let two = outs.take(2);
    assert(one.drop_last() =~= zero);
    assert(two.drop_last() =~= one);
    assert(after(t, zero) == t);
    assert(after(t, one).phase == PhaseView::Quiet(cmds));
    assert(after(t, two).phase == PhaseView::Clear(UndoView::start(cmds)));
    assert(deeds(t, zero).len() == 0);
    assert(deeds(t, one).len() == 1);
    assert(deeds(t, two).len() == 2);
    lemma_clearing(t, outs, record, i);
}

proof fn lemma_clearing(t: ApplyingView, outs: Seq<OutcomeView>, record: Seq<char>, i: int)
    requires
        t.phase is Look,
        outs.len() >= 2 + record_of(record).revert.len(),
        outs[0] == OutcomeView::Text(record),
        0 <= i < record_of(record).revert.len(),
    ensures
        after(t, outs.take(2 + i)).phase matches PhaseView::Clear(u) && u.now == record_of(
            record,
        ).revert[i] && u.rest == record_of(record).revert.skip(i + 1),
        after(t, outs.take(2 + i)).opts == t.opts,
        deeds(t, outs.take(2 + i)).len() == 2 + i,
    decreases i,
{
    let cmds = record_of(record).revert;
    let now = outs.take(2 + i);
    if i == 0 {
        let zero = outs.take(0);
        let one = outs.take(1);
        assert(one.drop_last() =~= zero);
        assert(now.drop_last() =~= one);
        assert(one.last() == outs[0]);
        assert(after(t, zero) == t);
        assert(after(t, one).phase == PhaseView::Quiet(cmds));
        assert(deeds(t, zero).len() == 0);
        assert(deeds(t, one).len() == 1);
    } else {
        lemma_clearing(t, outs, record, i - 1);
        assert(now.drop_last() =~= outs.take(2 + (i - 1)));
        let rest = cmds.skip(i);
        assert(rest[0] == cmds[i]);
        assert(rest.skip(1) =~= cmds.skip(i + 1));
    }
}

/// Reverting stops the switch before it undoes anything, and a record that
/// cannot be read is reported and nothing is done.
pub proof fn reverting_stops_the_switch_first(t: RevertingView, o: OutcomeView)
    requires
        t.phase is Read,
    ensures
        t.action() == Some(ActionView::Read { path: state_file(t.opts) }),
        o matches OutcomeView::Text(record) ==> t.at(t.next(o)).action() == Some(
            disarm_action(t.opts.netns),
        ),
        !o.worked() ==> t.at(t.next(o)).end() == Some(EndView::Bad(ErrorView::Io(o.reason()))),
{
}

/// A revert that is stuck keeps its record: everything was tried, nothing worked,
/// and all of it is listed.
pub proof fn a_stuck_revert_keeps_its_record(
    t: RevertingView,
    outs: Seq<OutcomeView>,
    failed: Seq<char>,
    remaining: Seq<Seq<char>>,
)
    requires
        t.phase is Read,
        after_revert(t, outs).end() == Some(
            EndView::Bad(ErrorView::Stranded { failed, remaining }),
        ),
    ensures
        ran(revert_deeds(t, outs), t.opts.netns, remaining),
        all_failed(revert_deeds(t, outs), remaining.len()),
        forall|k: int|
            0 <= k < revert_deeds(t, outs).len() ==> !((#[trigger] revert_deeds(t, outs)[k]).action
                is Remove),
{
    lemma_stuck(t, outs);
}

/// What is known of reverting at every step, of what failed and what is kept.
spec fn revert_tale(t: RevertingView, ds: Seq<Deed>) -> bool {
    match t.phase {
        RevertPhaseView::Back { undo, applied } => kept(ds) && under_way(
            undo,
            applied.revert,
            ds,
            t.opts.netns,
        ),
        RevertPhaseView::Failed(ErrorView::Stranded { remaining, .. }) => kept(ds) && ran(
            ds,
            t.opts.netns,
            remaining,
        ) && all_failed(ds, remaining.len()),
        RevertPhaseView::Over(_) => true,
        _ => kept(ds),
    }
}

/// Whether no file was removed.
spec fn kept(ds: Seq<Deed>) -> bool {
    forall|k: int| 0 <= k < ds.len() ==> !((#[trigger] ds[k]).action is Remove)
}

proof fn lemma_stuck(t: RevertingView, outs: Seq<OutcomeView>)
    requires
        t.phase is Read,
    ensures
        revert_tale(after_revert(t, outs), revert_deeds(t, outs)),
        after_revert(t, outs).opts == t.opts,
    decreases outs.len(),
{
    if outs.len() > 0 {
        let fewer = outs.drop_last();
        lemma_stuck(t, fewer);
        lemma_revert_story(t, outs);
        let u = after_revert(t, fewer);
        let ds = revert_deeds(t, fewer);
        let o = outs.last();
        let ns = u.opts.netns;
        if u.action() is Some {
            let d = Deed { action: u.action()->0, outcome: o };
            let es = ds.push(d);
            if !(u.phase is Forget) {
                assert(kept(es)) by {
                    assert forall|k: int| 0 <= k < es.len() implies !((#[trigger] es[k]).action
                        is Remove) by {
                        if k < ds.len() {
                            assert(es[k] == ds[k]);
                        }
                    }
                }
            }
            if let RevertPhaseView::Back { undo, applied } = u.phase {
                let cmds = applied.revert;
                let i = choose|i: int| #[trigger] undo_stands(undo, cmds, i, ds, ns);
                lemma_ran_push(ds, ns, cmds, i, d);
                if undo.rest.len() == 0 && !undo.worked && !o.worked() {
                    assert(i + 1 == cmds.len());
                    assert(cmds.take(i + 1) =~= cmds);
                    assert(cmds.take(i).push(cmds[i]) =~= cmds);
                    assert(all_failed(es, cmds.len())) by {
                        assert forall|k: int| es.len() - cmds.len() <= k < es.len() implies !(
                        #[trigger] es[k]).outcome.worked() by {
                            if k < ds.len() {
                                assert(es[k] == ds[k]);
                            }
                        }
                    }
                }
            }
        }
    }
}

/// Confirming reads the record, stops the switch, and writes the same record with
/// the switch off; where the record cannot be read, nothing is touched.
pub proof fn confirming_rewrites_the_record(
    t: ConfirmingView,
    record: Seq<char>,
    o: OutcomeView,
    bad: OutcomeView,
)
    requires
        t.phase is Read,
        !(o is Error),
        !bad.worked(),
    ensures
        ({
            let read = t.at(t.next(OutcomeView::Text(record)));
            let quiet = read.at(read.next(o));
            &&& t.action() == Some(ActionView::Read { path: state_file(t.opts) })
            &&& quiet.action() == Some(
                ActionView::Write {
                    path: state_file(t.opts),
                    text: unlines(
                        record_lines(
                            AppliedView { revert: record_of(record).revert, deadman: false },
                        ),
                    ),
                },
            )
            &&& quiet.at(quiet.next(bad)).end() == Some(EndView::Bad(ErrorView::Io(bad.reason())))
            &&& t.at(t.next(bad)).end() == Some(EndView::Bad(ErrorView::Io(bad.reason())))
        }),
{
}

proof fn lemma_revert_under_way(
    t: RevertingView,
    outs: Seq<OutcomeView>,
    record: Seq<char>,
    i: int,
)
    requires
        t.phase is Read,
        outs.len() >= 2 + i,
        outs[0] == OutcomeView::Text(record),
        0 <= i < record_of(record).revert.len(),
    ensures
        ({
            let cmds = record_of(record).revert;
            &&& after_revert(t, outs.take(2 + i)).opts == t.opts
            &&& after_revert(t, outs.take(2 + i)).phase matches RevertPhaseView::Back {
                undo,
                applied,
            }
            &&& applied == record_of(record)
            &&& undo.now == cmds[i]
            &&& undo.rest == cmds.skip(i + 1)
            &&& undo.worked <==> exists|k: int| 2 <= k < 2 + i && (#[trigger] outs[k]).worked()
            &&& !undo.worked ==> undo.left == cmds.take(i)
        }),
    decreases i,
{
    let cmds = record_of(record).revert;
    if i == 0 {
        let zero = outs.take(0);
        let one = outs.take(1);
        let two = outs.take(2);
        assert(one.drop_last() =~= zero);
        assert(two.drop_last() =~= one);
        assert(after_revert(t, zero) == t);
        assert(after_revert(t, one).phase == RevertPhaseView::Quiet(record_of(record)));
        assert(cmds.take(0) =~= seq![]);
    } else {
        lemma_revert_under_way(t, outs, record, i - 1);
        let now = outs.take(2 + i);
        assert(now.drop_last() =~= outs.take(1 + i));
        assert(now.last() == outs[1 + i]);
        assert(cmds.skip(i)[0] == cmds[i]);
        assert(cmds.skip(i).skip(1) =~= cmds.skip(i + 1));
        assert(cmds.take(i - 1).push(cmds[i - 1]) =~= cmds.take(i));
        if exists|k: int| 2 <= k < 1 + i && (#[trigger] outs[k]).worked() {
            let k = choose|k: int| 2 <= k < 1 + i && (#[trigger] outs[k]).worked();
            assert(2 <= k < 2 + i && outs[k].worked());
        }
    }
}

/// A revert is stuck where none of its commands worked: what remains is all of it,
/// and the record stays. Where one of them worked it is done, and the record goes.
pub proof fn a_revert_is_stuck_where_nothing_worked(
    t: RevertingView,
    outs: Seq<OutcomeView>,
    record: Seq<char>,
)
    requires
        t.phase is Read,
        record_of(record).revert.len() > 0,
        outs.len() == 2 + record_of(record).revert.len(),
        outs[0] == OutcomeView::Text(record),
    ensures
        (forall|k: int| 2 <= k < outs.len() ==> !(#[trigger] outs[k]).worked()) ==> (after_revert(
            t,
            outs,
        ).end() matches Some(EndView::Bad(ErrorView::Stranded { failed, remaining })) && remaining
            == record_of(record).revert),
        (exists|k: int| 2 <= k < outs.len() && (#[trigger] outs[k]).worked()) ==> after_revert(
            t,
            outs,
        ).action() == Some(ActionView::Remove { path: state_file(t.opts) }),
{
    let cmds = record_of(record).revert;
    let n = cmds.len() as int;
    lemma_revert_under_way(t, outs, record, n - 1);
    assert(outs.take(1 + n) =~= outs.drop_last());
    assert(cmds.skip(n) =~= seq![]);
    assert(cmds.take(n - 1).push(cmds[n - 1]) =~= cmds);
    if exists|k: int| 2 <= k < outs.len() && (#[trigger] outs[k]).worked() {
        let k = choose|k: int| 2 <= k < outs.len() && (#[trigger] outs[k]).worked();
        if k < 1 + n {
            assert(outs[k].worked());
        }
    }
}

} // verus!
