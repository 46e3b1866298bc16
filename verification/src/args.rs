//! The command line of the planner.
//!
//! The editor in the browser and the command line compile through exactly the
//! same code, so what the screen shows and what a script produces cannot drift
//! apart. Every fact about the host can be overridden, so that a policy can be
//! compiled against a machine that is not this one.

use vstd::prelude::*;
use vstd::string::*;

use crate::api::{
    a_rule_reads_back, command_for, default_among, endpoints_among,
    every_spelling_names_its_path_and_nothing_else_does, host_asked, malformed_among, nameable,
    option_for, options_for, parse_path, parse_rule, part_of, parts_of, path_named, path_spelling,
    policy_asked, query_pairs, rule_named, rule_option, rule_options, rule_spelling, rule_writable,
    rules_among, PartView,
};
use crate::num::{dec, decimal, read_decimal};
use crate::order::views;
use crate::policy::{
    filter_views, Host, HostView, Path, PathView, Policy, PolicyView, Rule, RuleView,
};
use crate::shell::{
    bare, in_quotes, lemma_line_parts, lemma_one_more_piece, lemma_one_word, lemma_space_parts,
    lemma_two_pieces, lemma_whole_command, shell_word, shell_words, stands_for,
};
use crate::text::{copy, cut, join, lemma_texts_push, lists, same, split_once, texts};

verus! {

/// What is to be done with a plan.
#[derive(Debug, Clone, Copy, PartialEq, Eq, Structural)]
pub enum Task {
    /// Print it.
    Print,
    /// Put it into the kernel.
    Apply,
    /// Keep what was applied.
    Confirm,
    /// Take back what was applied.
    Revert,
    /// Say what is applied.
    Status,
}

/// One argument, with its value.
pub enum Arg {
    Bare,
    Ip,
    Force,
    Task(Task),
    Deadman(u32),
    Default(Path),
    Rule(Rule),
    Admin(String),
    Endpoint(String),
    Interface(String),
    Cgroup(String),
    TorTrans(Option<u16>),
    TorDns(Option<u16>),
    TorUid(Option<u32>),
    Filter(String, u8),
}

/// What an [`Arg`] says.
pub enum ArgView {
    Bare,
    Ip,
    Force,
    Task(Task),
    Deadman(u32),
    Default(PathView),
    Rule(RuleView),
    Admin(Seq<char>),
    Endpoint(Seq<char>),
    Interface(Seq<char>),
    Cgroup(Seq<char>),
    TorTrans(Option<u16>),
    TorDns(Option<u16>),
    TorUid(Option<u32>),
    Filter(Seq<char>, u8),
}

impl View for Arg {
    type V = ArgView;

    open spec fn view(&self) -> ArgView {
        match *self {
            Arg::Bare => ArgView::Bare,
            Arg::Ip => ArgView::Ip,
            Arg::Force => ArgView::Force,
            Arg::Task(t) => ArgView::Task(t),
            Arg::Deadman(n) => ArgView::Deadman(n),
            Arg::Default(p) => ArgView::Default(p@),
            Arg::Rule(r) => ArgView::Rule(r@),
            Arg::Admin(s) => ArgView::Admin(s@),
            Arg::Endpoint(s) => ArgView::Endpoint(s@),
            Arg::Interface(s) => ArgView::Interface(s@),
            Arg::Cgroup(s) => ArgView::Cgroup(s@),
            Arg::TorTrans(p) => ArgView::TorTrans(p),
            Arg::TorDns(p) => ArgView::TorDns(p),
            Arg::TorUid(u) => ArgView::TorUid(u),
            Arg::Filter(s, n) => ArgView::Filter(s@, n),
        }
    }
}

/// What is wrong with a command line, and where.
#[derive(Debug, PartialEq, Eq)]
pub struct Complaint {
    pub what: String,
    pub subject: String,
}

/// What a [`Complaint`] says.
pub struct ComplaintView {
    pub what: Seq<char>,
    pub subject: Seq<char>,
}

impl View for Complaint {
    type V = ComplaintView;

    open spec fn view(&self) -> ComplaintView {
        ComplaintView { what: self.what@, subject: self.subject@ }
    }
}

/// The arguments that are followed by a value.
pub open spec fn takes_value(flag: Seq<char>) -> bool {
    ||| flag == "--default"@
    ||| flag == "--rule"@
    ||| flag == "--admin"@
    ||| flag == "--endpoint"@
    ||| flag == "--iface"@
    ||| flag == "--cgroup"@
    ||| flag == "--tor-trans"@
    ||| flag == "--tor-dns"@
    ||| flag == "--tor-uid"@
    ||| flag == "--rp-filter"@
    ||| flag == "--deadman"@
}

/// A decimal number of at most `max`, where there is one.
pub open spec fn number_in(value: Option<Seq<char>>, max: nat) -> Option<nat> {
    match value {
        Some(v) => decimal(v, max),
        None => None,
    }
}

pub open spec fn port_in(value: Option<Seq<char>>) -> Option<u16> {
    match number_in(value, u16::MAX as nat) {
        Some(n) => Some(n as u16),
        None => None,
    }
}

pub open spec fn uid_in(value: Option<Seq<char>>) -> Option<u32> {
    match number_in(value, u32::MAX as nat) {
        Some(n) => Some(n as u32),
        None => None,
    }
}

/// An interface and its reverse-path filter setting.
pub open spec fn filter_named(v: Seq<char>) -> Option<(Seq<char>, u8)> {
    match split_once(v, '=') {
        Some((name, setting)) => match decimal(setting, u8::MAX as nat) {
            Some(n) => Some((name, n as u8)),
            None => None,
        },
        None => None,
    }
}

/// An argument without a value.
pub open spec fn switch_named(flag: Seq<char>) -> Option<ArgView> {
    if flag == "--bare"@ {
        Some(ArgView::Bare)
    } else if flag == "--ip"@ {
        Some(ArgView::Ip)
    } else if flag == "--force"@ {
        Some(ArgView::Force)
    } else if flag == "--apply"@ {
        Some(ArgView::Task(Task::Apply))
    } else if flag == "--confirm"@ {
        Some(ArgView::Task(Task::Confirm))
    } else if flag == "--revert"@ {
        Some(ArgView::Task(Task::Revert))
    } else if flag == "--status"@ {
        Some(ArgView::Task(Task::Status))
    } else {
        None
    }
}

pub open spec fn complaint(what: Seq<char>, subject: Seq<char>) -> Result<ArgView, ComplaintView> {
    Err(ComplaintView { what, subject })
}

/// What an argument with its value asks for.
pub open spec fn value_named(flag: Seq<char>, v: Seq<char>) -> Result<ArgView, ComplaintView> {
    if flag == "--rule"@ {
        match rule_named(v) {
            Ok(r) => Ok(ArgView::Rule(r)),
            Err(_) => complaint("not <selector>=<path>"@, v),
        }
    } else if flag == "--admin"@ {
        Ok(ArgView::Admin(v))
    } else if flag == "--endpoint"@ {
        Ok(ArgView::Endpoint(v))
    } else if flag == "--iface"@ {
        Ok(ArgView::Interface(v))
    } else if flag == "--cgroup"@ {
        Ok(ArgView::Cgroup(v))
    } else if flag == "--rp-filter"@ {
        match filter_named(v) {
            Some((name, n)) => Ok(ArgView::Filter(name, n)),
            None => complaint("not <iface>=<0|1|2>"@, v),
        }
    } else if flag == "--deadman"@ {
        match uid_in(Some(v)) {
            Some(n) => Ok(ArgView::Deadman(n)),
            None => complaint("not a number of seconds"@, v),
        }
    } else {
        complaint("unknown argument"@, flag)
    }
}

/// What an argument asks for, with the value behind it if there is one.
pub open spec fn arg_named(flag: Seq<char>, value: Option<Seq<char>>) -> Result<
    ArgView,
    ComplaintView,
> {
    if flag == "--default"@ {
        match value {
            Some(v) => match path_named(v) {
                Some(p) => Ok(ArgView::Default(p)),
                None => complaint("not a path"@, flag),
            },
            None => complaint("not a path"@, flag),
        }
    } else if flag == "--tor-trans"@ {
        Ok(ArgView::TorTrans(port_in(value)))
    } else if flag == "--tor-dns"@ {
        Ok(ArgView::TorDns(port_in(value)))
    } else if flag == "--tor-uid"@ {
        Ok(ArgView::TorUid(uid_in(value)))
    } else if takes_value(flag) {
        match value {
            Some(v) => value_named(flag, v),
            None => complaint("missing value"@, flag),
        }
    } else {
        match switch_named(flag) {
            Some(a) => Ok(a),
            None => complaint("unknown argument"@, flag),
        }
    }
}

/// Some arguments read, and those that follow.
pub open spec fn behind(
    done: Seq<ArgView>,
    rest: Result<Seq<ArgView>, ComplaintView>,
) -> Result<Seq<ArgView>, ComplaintView> {
    match rest {
        Ok(r) => Ok(done + r),
        Err(c) => Err(c),
    }
}

/// What a command line asks for, or what is wrong with it first.
pub open spec fn args_read(args: Seq<Seq<char>>) -> Result<Seq<ArgView>, ComplaintView>
    decreases args.len(),
{
    if args.len() == 0 {
        Ok(seq![])
    } else {
        let valued = takes_value(args[0]) && args.len() > 1;
        let value = if valued {
            Some(args[1])
        } else {
            None
        };
        match arg_named(args[0], value) {
            Ok(a) => behind(
                seq![a],
                args_read(
                    args.skip(
                        if valued {
                            2
                        } else {
                            1
                        },
                    ),
                ),
            ),
            Err(c) => Err(c),
        }
    }
}

/// What the planner is asked to do.
pub struct Request {
    pub policy: Policy,
    pub host: Host,
    pub show_ip: bool,
    pub force: bool,
    pub task: Task,
    pub deadman_secs: u32,
}

/// What a [`Request`] says.
pub struct RequestView {
    pub policy: PolicyView,
    pub host: HostView,
    pub show_ip: bool,
    pub force: bool,
    pub task: Task,
    pub deadman_secs: u32,
}

impl View for Request {
    type V = RequestView;

    open spec fn view(&self) -> RequestView {
        RequestView {
            policy: self.policy@,
            host: self.host@,
            show_ip: self.show_ip,
            force: self.force,
            task: self.task,
            deadman_secs: self.deadman_secs,
        }
    }
}

/// What is asked for before any argument. Probing cannot know which inbound
/// session is the operator's, so nobody counts as one until they are named.
pub open spec fn asked_at_first(host: HostView) -> RequestView {
    RequestView {
        policy: PolicyView { rules: seq![], default_path: PathView::Direct },
        host: HostView { admin_peers: seq![], ..host },
        show_ip: false,
        force: false,
        task: Task::Print,
        deadman_secs: 120,
    }
}

/// What one more argument changes.
pub open spec fn with_arg(r: RequestView, a: ArgView) -> RequestView {
    match a {
        ArgView::Bare => r,
        ArgView::Ip => RequestView { show_ip: true, ..r },
        ArgView::Force => RequestView { force: true, ..r },
        ArgView::Task(task) => RequestView { task, ..r },
        ArgView::Deadman(deadman_secs) => RequestView { deadman_secs, ..r },
        ArgView::Default(default_path) => RequestView {
            policy: PolicyView { default_path, ..r.policy },
            ..r
        },
        ArgView::Rule(rule) => RequestView {
            policy: PolicyView { rules: r.policy.rules.push(rule), ..r.policy },
            ..r
        },
        ArgView::Admin(v) => RequestView {
            host: HostView { admin_peers: r.host.admin_peers.push(v), ..r.host },
            ..r
        },
        ArgView::Endpoint(v) => RequestView {
            host: HostView { tunnel_endpoints: r.host.tunnel_endpoints.push(v), ..r.host },
            ..r
        },
        ArgView::Interface(v) => RequestView {
            host: HostView { interfaces: r.host.interfaces.push(v), ..r.host },
            ..r
        },
        ArgView::Cgroup(v) => RequestView {
            host: HostView { cgroups: r.host.cgroups.push(v), ..r.host },
            ..r
        },
        ArgView::TorTrans(tor_trans_port) => RequestView {
            host: HostView { tor_trans_port, ..r.host },
            ..r
        },
        ArgView::TorDns(tor_dns_port) => RequestView {
            host: HostView { tor_dns_port, ..r.host },
            ..r
        },
        ArgView::TorUid(tor_uid) => RequestView { host: HostView { tor_uid, ..r.host }, ..r },
        ArgView::Filter(name, n) => RequestView {
            host: HostView { rp_filter: r.host.rp_filter.push((name, n)), ..r.host },
            ..r
        },
    }
}

/// What some arguments ask for, one after the other.
pub open spec fn asked(first: RequestView, args: Seq<ArgView>) -> RequestView
    decreases args.len(),
{
    if args.len() == 0 {
        first
    } else {
        with_arg(asked(first, args.drop_last()), args.last())
    }
}

fn valued(flag: &str) -> (r: bool)
    ensures
        r == takes_value(flag@),
{
    same(flag, "--default") || same(flag, "--rule") || same(flag, "--admin") || same(
        flag,
        "--endpoint",
    ) || same(flag, "--iface") || same(flag, "--cgroup") || same(flag, "--tor-trans") || same(
        flag,
        "--tor-dns",
    ) || same(flag, "--tor-uid") || same(flag, "--rp-filter") || same(flag, "--deadman")
}

fn read_port(value: Option<&str>) -> (r: Option<u16>)
    ensures
        r == port_in(crate::text::opt_text(value)),
{
    match value {
        Some(v) => match read_decimal(v, u16::MAX as u64) {
            Some(n) => Some(n as u16),
            None => None,
        },
        None => None,
    }
}

fn read_uid(value: Option<&str>) -> (r: Option<u32>)
    ensures
        r == uid_in(crate::text::opt_text(value)),
{
    match value {
        Some(v) => match read_decimal(v, u32::MAX as u64) {
            Some(n) => Some(n as u32),
            None => None,
        },
        None => None,
    }
}

fn read_filter(v: &str) -> (r: Option<(String, u8)>)
    ensures
        match r {
            Some((name, n)) => filter_named(v@) == Some((name@, n)),
            None => filter_named(v@) is None,
        },
{
    match cut(v, '=') {
        Some((name, setting)) => match read_decimal(setting.as_str(), u8::MAX as u64) {
            Some(n) => Some((name, n as u8)),
            None => None,
        },
        None => None,
    }
}

fn refuse(what: &str, subject: &str) -> (r: Result<Arg, Complaint>)
    ensures
        r matches Err(c) && c@ == (ComplaintView { what: what@, subject: subject@ }),
{
    Err(Complaint { what: copy(what), subject: copy(subject) })
}

/// A reading and what it is to be.
pub open spec fn reads_as(r: Result<Arg, Complaint>, v: Result<ArgView, ComplaintView>) -> bool {
    match r {
        Ok(a) => v == Ok::<ArgView, ComplaintView>(a@),
        Err(c) => v == Err::<ArgView, ComplaintView>(c@),
    }
}

fn read_switch(flag: &str) -> (r: Option<Arg>)
    ensures
        match r {
            Some(a) => switch_named(flag@) == Some(a@),
            None => switch_named(flag@) is None,
        },
{
    if same(flag, "--bare") {
        Some(Arg::Bare)
    } else if same(flag, "--ip") {
        Some(Arg::Ip)
    } else if same(flag, "--force") {
        Some(Arg::Force)
    } else if same(flag, "--apply") {
        Some(Arg::Task(Task::Apply))
    } else if same(flag, "--confirm") {
        Some(Arg::Task(Task::Confirm))
    } else if same(flag, "--revert") {
        Some(Arg::Task(Task::Revert))
    } else if same(flag, "--status") {
        Some(Arg::Task(Task::Status))
    } else {
        None
    }
}

fn read_valued(flag: &str, v: &str) -> (r: Result<Arg, Complaint>)
    ensures
        reads_as(r, value_named(flag@, v@)),
{
    if same(flag, "--rule") {
        match parse_rule(v) {
            Ok(rule) => Ok(Arg::Rule(rule)),
            Err(_) => refuse("not <selector>=<path>", v),
        }
    } else if same(flag, "--admin") {
        Ok(Arg::Admin(copy(v)))
    } else if same(flag, "--endpoint") {
        Ok(Arg::Endpoint(copy(v)))
    } else if same(flag, "--iface") {
        Ok(Arg::Interface(copy(v)))
    } else if same(flag, "--cgroup") {
        Ok(Arg::Cgroup(copy(v)))
    } else if same(flag, "--rp-filter") {
        match read_filter(v) {
            Some((name, n)) => Ok(Arg::Filter(name, n)),
            None => refuse("not <iface>=<0|1|2>", v),
        }
    } else if same(flag, "--deadman") {
        match read_uid(Some(v)) {
            Some(n) => Ok(Arg::Deadman(n)),
            None => refuse("not a number of seconds", v),
        }
    } else {
        refuse("unknown argument", flag)
    }
}

fn read_arg(flag: &str, value: Option<&str>) -> (r: Result<Arg, Complaint>)
    ensures
        reads_as(r, arg_named(flag@, crate::text::opt_text(value))),
{
    if same(flag, "--default") {
        match value {
            Some(v) => match parse_path(v) {
                Some(p) => Ok(Arg::Default(p)),
                None => refuse("not a path", flag),
            },
            None => refuse("not a path", flag),
        }
    } else if same(flag, "--tor-trans") {
        Ok(Arg::TorTrans(read_port(value)))
    } else if same(flag, "--tor-dns") {
        Ok(Arg::TorDns(read_port(value)))
    } else if same(flag, "--tor-uid") {
        Ok(Arg::TorUid(read_uid(value)))
    } else if valued(flag) {
        match value {
            Some(v) => read_valued(flag, v),
            None => refuse("missing value", flag),
        }
    } else {
        match read_switch(flag) {
            Some(a) => Ok(a),
            None => refuse("unknown argument", flag),
        }
    }
}

impl Request {
    fn take(&mut self, a: Arg)
        ensures
            final(self)@ == with_arg(old(self)@, a@),
    {
        match a {
            Arg::Bare => {},
            Arg::Ip => {
                self.show_ip = true;
            },
            Arg::Force => {
                self.force = true;
            },
            Arg::Task(task) => {
                self.task = task;
            },
            Arg::Deadman(n) => {
                self.deadman_secs = n;
            },
            Arg::Default(p) => {
                self.policy.default_path = p;
            },
            Arg::Rule(r) => {
                let ghost before = self.policy.rules@;
                self.policy.rules.push(r);
                assert(views(self.policy.rules@) =~= views(before).push(r@));
            },
            Arg::Admin(v) => {
                let ghost before = self.host.admin_peers@;
                self.host.admin_peers.push(v);
                proof {
                    lemma_texts_push(before, v);
                }
            },
            Arg::Endpoint(v) => {
                let ghost before = self.host.tunnel_endpoints@;
                self.host.tunnel_endpoints.push(v);
                proof {
                    lemma_texts_push(before, v);
                }
            },
            Arg::Interface(v) => {
                let ghost before = self.host.interfaces@;
                self.host.interfaces.push(v);
                proof {
                    lemma_texts_push(before, v);
                }
            },
            Arg::Cgroup(v) => {
                let ghost before = self.host.cgroups@;
                self.host.cgroups.push(v);
                proof {
                    lemma_texts_push(before, v);
                }
            },
            Arg::TorTrans(p) => {
                self.host.tor_trans_port = p;
            },
            Arg::TorDns(p) => {
                self.host.tor_dns_port = p;
            },
            Arg::TorUid(u) => {
                self.host.tor_uid = u;
            },
            Arg::Filter(name, n) => {
                let ghost before = self.host.rp_filter@;
                self.host.rp_filter.push((name, n));
                assert(filter_views(self.host.rp_filter@) =~= filter_views(before).push(
                    (name@, n),
                ));
            },
        }
    }
}

/// Whether the command line asks for help.
pub fn wants_help(args: &Vec<String>) -> (r: bool)
    ensures
        r == (texts(args@).contains("-h"@) || texts(args@).contains("--help"@)),
{
    lists(args, "-h") || lists(args, "--help")
}

/// Whether the command line asks to start from nothing.
pub fn wants_bare(args: &Vec<String>) -> (r: bool)
    ensures
        r == texts(args@).contains("--bare"@),
{
    lists(args, "--bare")
}

/// Read a command line, against a host that was probed or is empty.
pub fn read_args(args: &Vec<String>, base: Host) -> (r: Result<Request, Complaint>)
    ensures
        match r {
            Ok(request) => args_read(texts(args@)) matches Ok(read) && request@ == asked(
                asked_at_first(base@),
                read,
            ),
            Err(c) => args_read(texts(args@)) == Err::<Seq<ArgView>, ComplaintView>(c@),
        },
{
    let ghost all = texts(args@);
    let mut host: Host = base;
    host.admin_peers = Vec::new();
    let mut request: Request = Request {
        policy: Policy::default(),
        host,
        show_ip: false,
        force: false,
        task: Task::Print,
        deadman_secs: 120,
    };
    assert(texts(request.host.admin_peers@) =~= Seq::<Seq<char>>::empty());
    let ghost first = asked_at_first(base@);
    let ghost mut done: Seq<ArgView> = Seq::empty();
    let mut i: usize = 0;
    assert(all.skip(0) =~= all);
    proof {
        lemma_behind_nothing(args_read(all));
    }
    while i < args.len()
        invariant
            i <= args@.len(),
            all == texts(args@),
            args_read(all) == behind(done, args_read(all.skip(i as int))),
            first == asked_at_first(base@),
            request@ == asked(first, done),
        decreases args@.len() - i,
    {
        let ghost t = all.skip(i as int);
        let flag: &str = args[i].as_str();
        assert(t[0] == flag@);
        let mut step: usize = 1;
        let mut value: Option<&str> = None;
        if valued(flag) && args.len() - i > 1 {
            value = Some(args[i + 1].as_str());
            step = 2;
            assert(t[1] == args@[i + 1]@);
        }
        match read_arg(flag, value) {
            Ok(a) => {
                assert(t.skip(step as int) =~= all.skip(i + step));
                proof {
                    lemma_behind_one(done, a@, args_read(all.skip(i + step)));
                    assert(done.push(a@).drop_last() =~= done);
                    done = done.push(a@);
                }
                request.take(a);
                i += step;
            },
            Err(c) => {
                return Err(c);
            },
        }
    }
    assert(all.skip(i as int) =~= Seq::<Seq<char>>::empty());
    assert(done + Seq::<ArgView>::empty() =~= done);
    Ok(request)
}

proof fn lemma_behind_nothing(rest: Result<Seq<ArgView>, ComplaintView>)
    ensures
        behind(seq![], rest) == rest,
{
    if let Ok(r) = rest {
        assert(Seq::<ArgView>::empty() + r =~= r);
    }
}

proof fn lemma_behind_one(
    done: Seq<ArgView>,
    a: ArgView,
    rest: Result<Seq<ArgView>, ComplaintView>,
)
    ensures
        behind(done, behind(seq![a], rest)) == behind(done.push(a), rest),
{
    if let Ok(r) = rest {
        assert(done + (seq![a] + r) =~= done.push(a) + r);
    }
}

// ---------------------------------------------------------------------------
// Laws
// ---------------------------------------------------------------------------

/// The argument that a parameter of a query becomes.
pub open spec fn flag_for(k: Seq<char>) -> Seq<char> {
    if k == "default"@ {
        "--default"@
    } else if k == "admin"@ {
        "--admin"@
    } else {
        "--endpoint"@
    }
}

/// The arguments of the command for a query, its rules apart.
pub open spec fn option_args(pairs: Seq<(Seq<char>, Seq<char>)>) -> Seq<Seq<char>>
    decreases pairs.len(),
{
    if pairs.len() == 0 {
        seq![]
    } else {
        let (k, v) = pairs.last();
        if option_for(k, v) is Some {
            option_args(pairs.drop_last()) + seq![flag_for(k), v]
        } else {
            option_args(pairs.drop_last())
        }
    }
}

/// The arguments that are the rules of a query.
pub open spec fn rule_args(pairs: Seq<(Seq<char>, Seq<char>)>) -> Seq<Seq<char>>
    decreases pairs.len(),
{
    if pairs.len() == 0 {
        seq![]
    } else {
        let (k, v) = pairs.last();
        if k == "rule"@ {
            rule_args(pairs.drop_last()) + seq!["--rule"@, v]
        } else {
            rule_args(pairs.drop_last())
        }
    }
}

/// The arguments of the command that applies what a query asks for.
pub open spec fn command_args(pairs: Seq<(Seq<char>, Seq<char>)>) -> Seq<Seq<char>> {
    option_args(pairs) + (rule_args(pairs) + seq!["--apply"@, "--deadman"@, "120"@])
}

/// What those arguments ask for, the rules apart.
spec fn option_views(parts: Seq<PartView>) -> Seq<ArgView>
    decreases parts.len(),
{
    if parts.len() == 0 {
        seq![]
    } else {
        let before = option_views(parts.drop_last());
        match parts.last() {
            PartView::Default(p) => before.push(ArgView::Default(p)),
            PartView::Admin(v) => before.push(ArgView::Admin(v)),
            PartView::Endpoint(v) => before.push(ArgView::Endpoint(v)),
            _ => before,
        }
    }
}

spec fn rule_views(parts: Seq<PartView>) -> Seq<ArgView>
    decreases parts.len(),
{
    if parts.len() == 0 {
        seq![]
    } else {
        let before = rule_views(parts.drop_last());
        match parts.last() {
            PartView::Rule(r) => before.push(ArgView::Rule(r)),
            _ => before,
        }
    }
}

proof fn lemma_words()
    ensures
        "default"@ != "rule"@,
        "default"@ != "admin"@,
        "default"@ != "endpoint"@,
        "rule"@ != "admin"@,
        "rule"@ != "endpoint"@,
        "admin"@ != "endpoint"@,
        "--default"@ != "--rule"@,
        "--default"@ != "--admin"@,
        "--default"@ != "--endpoint"@,
        "--default"@ != "--deadman"@,
        "--tor-trans"@ != "--rule"@,
        "--tor-trans"@ != "--admin"@,
        "--tor-trans"@ != "--endpoint"@,
        "--tor-trans"@ != "--deadman"@,
        "--tor-dns"@ != "--rule"@,
        "--tor-dns"@ != "--admin"@,
        "--tor-dns"@ != "--endpoint"@,
        "--tor-dns"@ != "--deadman"@,
        "--tor-uid"@ != "--rule"@,
        "--tor-uid"@ != "--admin"@,
        "--tor-uid"@ != "--endpoint"@,
        "--tor-uid"@ != "--deadman"@,
{
    reveal_strlit("default");
    reveal_strlit("rule");
    reveal_strlit("admin");
    reveal_strlit("endpoint");
    reveal_strlit("--default");
    reveal_strlit("--rule");
    reveal_strlit("--admin");
    reveal_strlit("--endpoint");
    reveal_strlit("--deadman");
    reveal_strlit("--tor-trans");
    reveal_strlit("--tor-dns");
    reveal_strlit("--tor-uid");
    assert("default"@[0] != "rule"@[0]);
    assert("default"@[0] != "admin"@[0]);
    assert("default"@[0] != "endpoint"@[0]);
    assert("rule"@[0] != "admin"@[0]);
    assert("rule"@[0] != "endpoint"@[0]);
    assert("admin"@[0] != "endpoint"@[0]);
    assert("--default"@[2] != "--rule"@[2]);
    assert("--default"@[2] != "--admin"@[2]);
    assert("--default"@[2] != "--endpoint"@[2]);
    assert("--default"@[4] != "--deadman"@[4]);
    assert("--tor-trans"@[2] != "--rule"@[2]);
    assert("--tor-trans"@[2] != "--admin"@[2]);
    assert("--tor-trans"@[2] != "--endpoint"@[2]);
    assert("--tor-trans"@[2] != "--deadman"@[2]);
    assert("--tor-dns"@[2] != "--rule"@[2]);
    assert("--tor-dns"@[2] != "--admin"@[2]);
    assert("--tor-dns"@[2] != "--endpoint"@[2]);
    assert("--tor-dns"@[2] != "--deadman"@[2]);
    assert("--tor-uid"@[2] != "--rule"@[2]);
    assert("--tor-uid"@[2] != "--admin"@[2]);
    assert("--tor-uid"@[2] != "--endpoint"@[2]);
    assert("--tor-uid"@[2] != "--deadman"@[2]);
}

proof fn lemma_more_words()
    ensures
        "--admin"@ != "--rule"@,
        "--endpoint"@ != "--rule"@,
        "--endpoint"@ != "--admin"@,
        "--deadman"@ != "--rule"@,
        "--deadman"@ != "--admin"@,
        "--deadman"@ != "--endpoint"@,
        "--deadman"@ != "--iface"@,
        "--deadman"@ != "--cgroup"@,
        "--deadman"@ != "--rp-filter"@,
        "--apply"@ != "--bare"@,
        "--apply"@ != "--ip"@,
        "--apply"@ != "--force"@,
        !takes_value("--apply"@),
{
    reveal_strlit("--default");
    reveal_strlit("--rule");
    reveal_strlit("--admin");
    reveal_strlit("--endpoint");
    reveal_strlit("--deadman");
    reveal_strlit("--iface");
    reveal_strlit("--cgroup");
    reveal_strlit("--rp-filter");
    reveal_strlit("--tor-trans");
    reveal_strlit("--tor-dns");
    reveal_strlit("--tor-uid");
    reveal_strlit("--apply");
    reveal_strlit("--bare");
    reveal_strlit("--ip");
    reveal_strlit("--force");
    assert("--admin"@[2] != "--rule"@[2]);
    assert("--endpoint"@[2] != "--rule"@[2]);
    assert("--endpoint"@[2] != "--admin"@[2]);
    assert("--deadman"@[2] != "--rule"@[2]);
    assert("--deadman"@[2] != "--admin"@[2]);
    assert("--deadman"@[2] != "--endpoint"@[2]);
    assert("--deadman"@[2] != "--iface"@[2]);
    assert("--deadman"@[2] != "--cgroup"@[2]);
    assert("--deadman"@[2] != "--rp-filter"@[2]);
    assert("--apply"@[2] != "--bare"@[2]);
    assert("--apply"@[2] != "--ip"@[2]);
    assert("--apply"@[2] != "--force"@[2]);
    assert("--apply"@[2] != "--default"@[2]);
    assert("--apply"@[2] != "--rule"@[2]);
    assert("--apply"@[3] != "--admin"@[3]);
    assert("--apply"@[2] != "--endpoint"@[2]);
    assert("--apply"@[2] != "--iface"@[2]);
    assert("--apply"@[2] != "--cgroup"@[2]);
    assert("--apply"@[2] != "--tor-trans"@[2]);
    assert("--apply"@[2] != "--tor-dns"@[2]);
    assert("--apply"@[2] != "--tor-uid"@[2]);
    assert("--apply"@[2] != "--rp-filter"@[2]);
    assert("--apply"@[2] != "--deadman"@[2]);
}

/// Reading one argument and its value in front of others.
proof fn lemma_read_valued(flag: Seq<char>, v: Seq<char>, a: ArgView, tail: Seq<Seq<char>>)
    requires
        takes_value(flag),
        arg_named(flag, Some(v)) == Ok::<ArgView, ComplaintView>(a),
    ensures
        args_read(seq![flag, v] + tail) == behind(seq![a], args_read(tail)),
{
    let s = seq![flag, v] + tail;
    assert(s.skip(2) =~= tail);
    assert(s[0] == flag && s[1] == v);
}

proof fn lemma_part_read(k: Seq<char>, v: Seq<char>)
    requires
        part_of(k, v) !is Malformed,
    ensures
        option_for(k, v) is Some ==> takes_value(flag_for(k)),
        part_of(k, v) matches PartView::Default(p) ==> option_for(k, v) is Some && arg_named(
            flag_for(k),
            Some(v),
        ) == Ok::<ArgView, ComplaintView>(ArgView::Default(p)),
        part_of(k, v) matches PartView::Admin(w) ==> option_for(k, v) is Some && arg_named(
            flag_for(k),
            Some(v),
        ) == Ok::<ArgView, ComplaintView>(ArgView::Admin(w)),
        part_of(k, v) matches PartView::Endpoint(w) ==> option_for(k, v) is Some && arg_named(
            flag_for(k),
            Some(v),
        ) == Ok::<ArgView, ComplaintView>(ArgView::Endpoint(w)),
        part_of(k, v) matches PartView::Rule(r) ==> k == "rule"@ && arg_named("--rule"@, Some(v))
            == Ok::<ArgView, ComplaintView>(ArgView::Rule(r)),
        option_for(k, v) is Some ==> part_of(k, v) is Default || part_of(k, v) is Admin || part_of(
            k,
            v,
        ) is Endpoint,
        k == "rule"@ ==> part_of(k, v) is Rule,
{
    lemma_words();
    lemma_more_words();
}

proof fn lemma_well_formed_front(parts: Seq<PartView>)
    requires
        malformed_among(parts).len() == 0,
        parts.len() > 0,
    ensures
        malformed_among(parts.drop_last()).len() == 0,
        parts.last() !is Malformed,
{
}

proof fn lemma_options_read(pairs: Seq<(Seq<char>, Seq<char>)>, tail: Seq<Seq<char>>)
    requires
        malformed_among(parts_of(pairs)).len() == 0,
    ensures
        args_read(option_args(pairs) + tail) == behind(
            option_views(parts_of(pairs)),
            args_read(tail),
        ),
    decreases pairs.len(),
{
    let parts = parts_of(pairs);
    if pairs.len() == 0 {
        assert(option_args(pairs) + tail =~= tail);
        lemma_behind_nothing(args_read(tail));
    } else {
        let front = pairs.drop_last();
        let (k, v) = pairs.last();
        assert(parts_of(front) =~= parts.drop_last());
        lemma_well_formed_front(parts);
        lemma_part_read(k, v);
        if option_for(k, v) is Some {
            let last = seq![flag_for(k), v];
            assert(option_args(pairs) + tail =~= option_args(front) + (last + tail));
            lemma_options_read(front, last + tail);
            let a = option_views(parts).last();
            lemma_read_valued(flag_for(k), v, a, tail);
            lemma_behind_one(option_views(parts.drop_last()), a, args_read(tail));
        } else {
            lemma_options_read(front, tail);
        }
    }
}

proof fn lemma_rules_read(pairs: Seq<(Seq<char>, Seq<char>)>, tail: Seq<Seq<char>>)
    requires
        malformed_among(parts_of(pairs)).len() == 0,
    ensures
        args_read(rule_args(pairs) + tail) == behind(rule_views(parts_of(pairs)), args_read(tail)),
    decreases pairs.len(),
{
    let parts = parts_of(pairs);
    if pairs.len() == 0 {
        assert(rule_args(pairs) + tail =~= tail);
        lemma_behind_nothing(args_read(tail));
    } else {
        let front = pairs.drop_last();
        let (k, v) = pairs.last();
        assert(parts_of(front) =~= parts.drop_last());
        lemma_well_formed_front(parts);
        lemma_part_read(k, v);
        if k == "rule"@ {
            let last = seq!["--rule"@, v];
            assert(rule_args(pairs) + tail =~= rule_args(front) + (last + tail));
            lemma_rules_read(front, last + tail);
            let a = rule_views(parts).last();
            lemma_read_valued("--rule"@, v, a, tail);
            lemma_behind_one(rule_views(parts.drop_last()), a, args_read(tail));
        } else {
            lemma_rules_read(front, tail);
        }
    }
}

proof fn lemma_end_read()
    ensures
        args_read(seq!["--apply"@, "--deadman"@, "120"@]) == Ok::<Seq<ArgView>, ComplaintView>(
            seq![ArgView::Task(Task::Apply), ArgView::Deadman(120)],
        ),
{
    lemma_words();
    lemma_more_words();
    let end = seq!["--apply"@, "--deadman"@, "120"@];
    let rest = seq!["--deadman"@, "120"@];
    assert(decimal("120"@, u32::MAX as nat) == Some(120nat)) by {
        reveal_strlit("120");
        reveal_with_fuel(crate::num::digits_value, 4);
        let d = "120"@;
        assert(d.drop_last() =~= seq!['1', '2']);
        assert(d.drop_last().drop_last() =~= seq!['1']);
        assert(d.drop_last().drop_last().drop_last() =~= seq![]);
    }
    assert(value_named("--deadman"@, "120"@) == Ok::<ArgView, ComplaintView>(
        ArgView::Deadman(120),
    ));
    lemma_read_valued("--deadman"@, "120"@, ArgView::Deadman(120), seq![]);
    assert(rest + Seq::<Seq<char>>::empty() =~= rest);
    assert(args_read(Seq::<Seq<char>>::empty()) == Ok::<Seq<ArgView>, ComplaintView>(seq![]));
    assert(seq![ArgView::Deadman(120)] + Seq::<ArgView>::empty() =~= seq![ArgView::Deadman(120)]);
    assert(end.skip(1) =~= rest);
    assert(seq![ArgView::Task(Task::Apply)] + seq![ArgView::Deadman(120)] =~= seq![
        ArgView::Task(Task::Apply),
        ArgView::Deadman(120),
    ]);
}

proof fn lemma_asked_more(first: RequestView, s: Seq<ArgView>, t: Seq<ArgView>)
    ensures
        asked(first, s + t) == asked(asked(first, s), t),
    decreases t.len(),
{
    if t.len() == 0 {
        assert(s + t =~= s);
    } else {
        assert((s + t).drop_last() =~= s + t.drop_last());
        lemma_asked_more(first, s, t.drop_last());
    }
}

proof fn lemma_options_asked(parts: Seq<PartView>, base: HostView)
    ensures
        asked(asked_at_first(base), option_views(parts)) == (RequestView {
            policy: PolicyView { rules: seq![], default_path: default_among(parts) },
            host: host_asked(parts, base),
            ..asked_at_first(base)
        }),
    decreases parts.len(),
{
    if parts.len() == 0 {
        assert(base.tunnel_endpoints + endpoints_among(parts) =~= base.tunnel_endpoints);
    } else {
        let front = parts.drop_last();
        lemma_options_asked(front, base);
        let before = option_views(front);
        match parts.last() {
            PartView::Default(p) => {
                assert(before.push(ArgView::Default(p)).drop_last() =~= before);
            },
            PartView::Admin(v) => {
                assert(before.push(ArgView::Admin(v)).drop_last() =~= before);
            },
            PartView::Endpoint(v) => {
                assert(before.push(ArgView::Endpoint(v)).drop_last() =~= before);
                assert(base.tunnel_endpoints + endpoints_among(parts) =~= (base.tunnel_endpoints
                    + endpoints_among(front)).push(v));
            },
            _ => {},
        }
    }
}

proof fn lemma_rules_asked(parts: Seq<PartView>, r: RequestView)
    ensures
        asked(r, rule_views(parts)) == (RequestView {
            policy: PolicyView { rules: r.policy.rules + rules_among(parts), ..r.policy },
            ..r
        }),
    decreases parts.len(),
{
    if parts.len() == 0 {
        assert(r.policy.rules + rules_among(parts) =~= r.policy.rules);
    } else {
        let front = parts.drop_last();
        lemma_rules_asked(front, r);
        let before = rule_views(front);
        if let PartView::Rule(rule) = parts.last() {
            assert(before.push(ArgView::Rule(rule)).drop_last() =~= before);
            assert(r.policy.rules + rules_among(parts) =~= (r.policy.rules + rules_among(
                front,
            )).push(rule));
        }
    }
}

/// The arguments of the command that the screen shows ask for the policy that the
/// screen shows: they read as the same rules, the same default and the same host,
/// applied with two minutes to confirm.
pub proof fn the_command_asks_for_what_the_screen_shows(
    pairs: Seq<(Seq<char>, Seq<char>)>,
    base: HostView,
)
    requires
        malformed_among(parts_of(pairs)).len() == 0,
    ensures
        args_read(command_args(pairs)) matches Ok(read) && asked(asked_at_first(base), read) == (
        RequestView {
            policy: policy_asked(parts_of(pairs)),
            host: host_asked(parts_of(pairs), base),
            show_ip: false,
            force: false,
            task: Task::Apply,
            deadman_secs: 120,
        }),
{
    let parts = parts_of(pairs);
    let end = seq!["--apply"@, "--deadman"@, "120"@];
    let last = seq![ArgView::Task(Task::Apply), ArgView::Deadman(120)];
    let (o, u) = (option_views(parts), rule_views(parts));
    lemma_options_read(pairs, rule_args(pairs) + end);
    lemma_rules_read(pairs, end);
    lemma_end_read();
    let first = asked_at_first(base);
    lemma_asked_more(first, o, u + last);
    lemma_options_asked(parts, base);
    let mid = asked(first, o);
    lemma_asked_more(mid, u, last);
    lemma_rules_asked(parts, mid);
    let end_of_rules = asked(mid, u);
    assert(Seq::<RuleView>::empty() + rules_among(parts) =~= rules_among(parts));
    assert(last.drop_last() =~= seq![ArgView::Task(Task::Apply)]);
    assert(last.drop_last().drop_last() =~= seq![]);
    reveal_with_fuel(asked, 3);
}

proof fn lemma_flagged(flag: Seq<char>, spaced: Seq<char>, v: Seq<char>, value: Seq<char>)
    requires
        bare(flag),
        spaced == flag + seq![' '],
        value == shell_word(v) || value == in_quotes(v),
    ensures
        stands_for(spaced + value, seq![flag, v]),
{
    lemma_one_word(flag, flag);
    lemma_one_word(value, v);
    lemma_space_parts();
    lemma_two_pieces(flag, seq![' '], value, seq![flag], seq![v]);
    assert(flag + seq![' '] + value =~= spaced + value);
    assert(seq![flag] + seq![v] =~= seq![flag, v]);
}

proof fn lemma_option_stands(k: Seq<char>, v: Seq<char>)
    ensures
        option_for(k, v) matches Some(o) ==> stands_for(o, seq![flag_for(k), v]),
        stands_for(rule_option(v), seq!["--rule"@, v]),
{
    lemma_words();
    reveal_strlit("--default ");
    reveal_strlit("--default");
    reveal_strlit("--admin ");
    reveal_strlit("--admin");
    reveal_strlit("--endpoint ");
    reveal_strlit("--endpoint");
    reveal_strlit("--rule ");
    reveal_strlit("--rule");
    assert("--default "@ =~= "--default"@ + seq![' ']);
    assert("--admin "@ =~= "--admin"@ + seq![' ']);
    assert("--endpoint "@ =~= "--endpoint"@ + seq![' ']);
    assert("--rule "@ =~= "--rule"@ + seq![' ']);
    lemma_flagged("--default"@, "--default "@, v, shell_word(v));
    lemma_flagged("--admin"@, "--admin "@, v, shell_word(v));
    lemma_flagged("--endpoint"@, "--endpoint "@, v, shell_word(v));
    lemma_flagged("--rule"@, "--rule "@, v, in_quotes(v));
}

proof fn lemma_first_stands()
    ensures
        stands_for("sudo tl-plan"@, seq!["sudo"@, "tl-plan"@]),
{
    reveal_strlit("sudo tl-plan");
    reveal_strlit("sudo");
    reveal_strlit("tl-plan");
    assert(bare("tl-plan"@));
    assert("sudo tl-plan"@ =~= "sudo"@ + seq![' '] + "tl-plan"@);
    lemma_flagged("sudo"@, "sudo"@ + seq![' '], "tl-plan"@, "tl-plan"@);
}

proof fn lemma_last_stands()
    ensures
        stands_for("--apply --deadman 120"@, seq!["--apply"@, "--deadman"@, "120"@]),
{
    reveal_strlit("--apply --deadman 120");
    reveal_strlit("--apply");
    reveal_strlit("--deadman");
    reveal_strlit("120");
    assert(bare("--apply"@) && bare("120"@));
    let pair = "--deadman"@ + seq![' '] + "120"@;
    lemma_flagged("--deadman"@, "--deadman"@ + seq![' '], "120"@, "120"@);
    lemma_one_word("--apply"@, "--apply"@);
    lemma_space_parts();
    lemma_two_pieces(
        "--apply"@,
        seq![' '],
        pair,
        seq!["--apply"@],
        seq!["--deadman"@, "120"@],
    );
    assert("--apply --deadman 120"@ =~= "--apply"@ + seq![' '] + pair);
    assert(seq!["--apply"@] + seq!["--deadman"@, "120"@] =~= seq![
        "--apply"@,
        "--deadman"@,
        "120"@,
    ]);
}

proof fn lemma_options_stand(pairs: Seq<(Seq<char>, Seq<char>)>)
    ensures
        stands_for(
            join(seq!["sudo tl-plan"@] + options_for(pairs), " \\\n    "@),
            seq!["sudo"@, "tl-plan"@] + option_args(pairs),
        ),
    decreases pairs.len(),
{
    let first = seq!["sudo tl-plan"@];
    let words = seq!["sudo"@, "tl-plan"@];
    if pairs.len() == 0 {
        lemma_first_stands();
        assert(first + options_for(pairs) =~= first);
        assert(words + option_args(pairs) =~= words);
    } else {
        let front = pairs.drop_last();
        let (k, v) = pairs.last();
        lemma_options_stand(front);
        if let Some(o) = option_for(k, v) {
            let ps = first + options_for(front);
            let a = words + option_args(front);
            lemma_line_parts();
            lemma_option_stands(k, v);
            lemma_one_more_piece(ps, " \\\n    "@, o, a, seq![flag_for(k), v]);
            assert(first + options_for(pairs) =~= ps.push(o));
            assert(words + option_args(pairs) =~= a + seq![flag_for(k), v]);
        }
    }
}

proof fn lemma_rules_stand(
    ps: Seq<Seq<char>>,
    a: Seq<Seq<char>>,
    pairs: Seq<(Seq<char>, Seq<char>)>,
)
    requires
        ps.len() > 0,
        stands_for(join(ps, " \\\n    "@), a),
    ensures
        stands_for(join(ps + rule_options(pairs), " \\\n    "@), a + rule_args(pairs)),
    decreases pairs.len(),
{
    if pairs.len() == 0 {
        assert(ps + rule_options(pairs) =~= ps);
        assert(a + rule_args(pairs) =~= a);
    } else {
        let front = pairs.drop_last();
        let (k, v) = pairs.last();
        lemma_rules_stand(ps, a, front);
        if k == "rule"@ {
            let before = ps + rule_options(front);
            let b = a + rule_args(front);
            lemma_line_parts();
            lemma_option_stands(k, v);
            lemma_one_more_piece(before, " \\\n    "@, rule_option(v), b, seq!["--rule"@, v]);
            assert(ps + rule_options(pairs) =~= before.push(rule_option(v)));
            assert(a + rule_args(pairs) =~= b + seq!["--rule"@, v]);
        }
    }
}

/// A shell reads the shown command as the program and the arguments that it was
/// put together from, whatever characters the query holds.
pub proof fn a_shell_reads_the_command_as_its_arguments(query: Seq<char>)
    ensures
        shell_words(command_for(query)) == Some(
            seq!["sudo"@, "tl-plan"@] + command_args(query_pairs(query)),
        ),
{
    let pairs = query_pairs(query);
    let first = seq!["sudo"@, "tl-plan"@];
    let end = seq!["--apply"@, "--deadman"@, "120"@];
    let ps = seq!["sudo tl-plan"@] + options_for(pairs);
    let a = first + option_args(pairs);
    lemma_options_stand(pairs);
    lemma_rules_stand(ps, a, pairs);
    lemma_line_parts();
    lemma_last_stands();
    lemma_one_more_piece(
        ps + rule_options(pairs),
        " \\\n    "@,
        "--apply --deadman 120"@,
        a + rule_args(pairs),
        end,
    );
    let all = a + rule_args(pairs) + end;
    assert(all =~= first + command_args(pairs));
    lemma_whole_command(command_for(query), all);
}

/// What is typed is what is shown: a shell reads the command of a query as the
/// planner and arguments that ask for the policy and the host of that query.
pub proof fn what_is_typed_is_what_is_shown(query: Seq<char>, base: HostView)
    requires
        malformed_among(parts_of(query_pairs(query))).len() == 0,
    ensures
        ({
            let parts = parts_of(query_pairs(query));
            &&& shell_words(command_for(query)) matches Some(ws)
            &&& ws.len() > 2
            &&& ws.take(2) == seq!["sudo"@, "tl-plan"@]
            &&& args_read(ws.skip(2)) matches Ok(read)
            &&& asked(asked_at_first(base), read).policy == policy_asked(parts)
            &&& asked(asked_at_first(base), read).host == host_asked(parts, base)
            &&& asked(asked_at_first(base), read).task == Task::Apply
            &&& asked(asked_at_first(base), read).deadman_secs == 120
        }),
{
    let pairs = query_pairs(query);
    let first = seq!["sudo"@, "tl-plan"@];
    let ws = first + command_args(pairs);
    a_shell_reads_the_command_as_its_arguments(query);
    the_command_asks_for_what_the_screen_shows(pairs, base);
    assert(ws.skip(2) =~= command_args(pairs));
    assert(ws.take(2) =~= first);
}

// ---------------------------------------------------------------------------
// What each argument asks for
// ---------------------------------------------------------------------------

proof fn lemma_how_flags_differ()
    ensures
        "--default"@.len() == 9 && "--default"@[2] == 'd' && "--default"@[4] == 'f' && "--default"@[8] == 't',
        "--rule"@.len() == 6 && "--rule"@[2] == 'r' && "--rule"@[4] == 'l' && "--rule"@[5] == 'e',
        "--admin"@.len() == 7 && "--admin"@[2] == 'a' && "--admin"@[4] == 'm' && "--admin"@[6] == 'n',
        "--endpoint"@.len() == 10 && "--endpoint"@[2] == 'e' && "--endpoint"@[4] == 'd' && "--endpoint"@[9] == 't',
        "--iface"@.len() == 7 && "--iface"@[2] == 'i' && "--iface"@[4] == 'a' && "--iface"@[6] == 'e',
        "--cgroup"@.len() == 8 && "--cgroup"@[2] == 'c' && "--cgroup"@[4] == 'r' && "--cgroup"@[7] == 'p',
        "--tor-trans"@.len() == 11 && "--tor-trans"@[2] == 't' && "--tor-trans"@[4] == 'r' && "--tor-trans"@[10] == 's',
        "--tor-dns"@.len() == 9 && "--tor-dns"@[2] == 't' && "--tor-dns"@[4] == 'r' && "--tor-dns"@[8] == 's',
        "--tor-uid"@.len() == 9 && "--tor-uid"@[2] == 't' && "--tor-uid"@[4] == 'r' && "--tor-uid"@[8] == 'd',
        "--rp-filter"@.len() == 11 && "--rp-filter"@[2] == 'r' && "--rp-filter"@[4] == '-' && "--rp-filter"@[10] == 'r',
        "--deadman"@.len() == 9 && "--deadman"@[2] == 'd' && "--deadman"@[4] == 'a' && "--deadman"@[8] == 'n',
        "--bare"@.len() == 6 && "--bare"@[2] == 'b' && "--bare"@[4] == 'r' && "--bare"@[5] == 'e',
        "--ip"@.len() == 4,
        "--force"@.len() == 7 && "--force"@[2] == 'f' && "--force"@[4] == 'r' && "--force"@[6] == 'e',
        "--apply"@.len() == 7 && "--apply"@[2] == 'a' && "--apply"@[4] == 'p' && "--apply"@[6] == 'y',
        "--confirm"@.len() == 9 && "--confirm"@[2] == 'c' && "--confirm"@[4] == 'n' && "--confirm"@[8] == 'm',
        "--revert"@.len() == 8 && "--revert"@[2] == 'r' && "--revert"@[4] == 'v' && "--revert"@[7] == 't',
        "--status"@.len() == 8 && "--status"@[2] == 's' && "--status"@[4] == 'a' && "--status"@[7] == 's',
{
    reveal_strlit("--default");
    reveal_strlit("--rule");
    reveal_strlit("--admin");
    reveal_strlit("--endpoint");
    reveal_strlit("--iface");
    reveal_strlit("--cgroup");
    reveal_strlit("--tor-trans");
    reveal_strlit("--tor-dns");
    reveal_strlit("--tor-uid");
    reveal_strlit("--rp-filter");
    reveal_strlit("--deadman");
    reveal_strlit("--bare");
    reveal_strlit("--ip");
    reveal_strlit("--force");
    reveal_strlit("--apply");
    reveal_strlit("--confirm");
    reveal_strlit("--revert");
    reveal_strlit("--status");
}

/// What a command line makes of a request, where it reads.
pub open spec fn becomes(args: Seq<Seq<char>>, r: RequestView) -> Option<RequestView> {
    match args_read(args) {
        Ok(read) => Some(asked(r, read)),
        Err(_) => None,
    }
}

proof fn lemma_one_argument(first: Seq<Seq<char>>, a: ArgView, rest: Seq<Seq<char>>, r: RequestView)
    requires
        args_read(first + rest) == behind(seq![a], args_read(rest)),
    ensures
        becomes(first + rest, r) == becomes(rest, with_arg(r, a)),
{
    let one = seq![a];
    assert(one.drop_last() =~= Seq::<ArgView>::empty());
    reveal_with_fuel(asked, 2);
    assert(asked(r, one) == with_arg(r, a));
    if let Ok(read) = args_read(rest) {
        lemma_asked_more(r, one, read);
    }
}

proof fn lemma_one_value(
    flag: Seq<char>,
    v: Seq<char>,
    a: ArgView,
    rest: Seq<Seq<char>>,
    r: RequestView,
)
    requires
        takes_value(flag),
        arg_named(flag, Some(v)) == Ok::<ArgView, ComplaintView>(a),
    ensures
        becomes(seq![flag, v] + rest, r) == becomes(rest, with_arg(r, a)),
{
    lemma_read_valued(flag, v, a, rest);
    lemma_one_argument(seq![flag, v], a, rest, r);
}

proof fn lemma_one_switch(flag: Seq<char>, a: ArgView, rest: Seq<Seq<char>>, r: RequestView)
    requires
        !takes_value(flag),
        arg_named(flag, None) == Ok::<ArgView, ComplaintView>(a),
    ensures
        becomes(seq![flag] + rest, r) == becomes(rest, with_arg(r, a)),
{
    let s = seq![flag] + rest;
    assert(s.skip(1) =~= rest);
    assert(s[0] == flag);
    lemma_one_argument(seq![flag], a, rest, r);
}

/// A number behind an argument is the number that is taken: Tor's two ports, its
/// uid and the seconds before a revert. Each argument changes its own fact, leaves
/// all else, and what follows is read as if it stood alone.
pub proof fn a_number_is_taken_as_it_is_written(
    n: u32,
    p: u16,
    rest: Seq<Seq<char>>,
    r: RequestView,
)
    ensures
        becomes(seq!["--tor-trans"@, dec(p as nat)] + rest, r) == becomes(
            rest,
            (RequestView { host: HostView { tor_trans_port: Some(p), ..r.host }, ..r }),
        ),
        becomes(seq!["--tor-dns"@, dec(p as nat)] + rest, r) == becomes(
            rest,
            (RequestView { host: HostView { tor_dns_port: Some(p), ..r.host }, ..r }),
        ),
        becomes(seq!["--tor-uid"@, dec(n as nat)] + rest, r) == becomes(
            rest,
            (RequestView { host: HostView { tor_uid: Some(n), ..r.host }, ..r }),
        ),
        becomes(seq!["--deadman"@, dec(n as nat)] + rest, r) == becomes(
            rest,
            (RequestView { deadman_secs: n, ..r }),
        ),
{
    lemma_how_flags_differ();
    crate::num::dec_reads_back(p as nat, u16::MAX as nat);
    crate::num::dec_reads_back(n as nat, u32::MAX as nat);
    lemma_one_value("--tor-trans"@, dec(p as nat), ArgView::TorTrans(Some(p)), rest, r);
    lemma_one_value("--tor-dns"@, dec(p as nat), ArgView::TorDns(Some(p)), rest, r);
    lemma_one_value("--tor-uid"@, dec(n as nat), ArgView::TorUid(Some(n)), rest, r);
    lemma_one_value("--deadman"@, dec(n as nat), ArgView::Deadman(n), rest, r);
}

/// A text behind an argument is taken as it is, and added to those before it.
pub proof fn a_text_is_taken_as_it_is(v: Seq<char>, rest: Seq<Seq<char>>, r: RequestView)
    ensures
        becomes(seq!["--admin"@, v] + rest, r) == becomes(
            rest,
            (RequestView {
                host: HostView { admin_peers: r.host.admin_peers + seq![v], ..r.host },
                ..r
            }),
        ),
        becomes(seq!["--endpoint"@, v] + rest, r) == becomes(
            rest,
            (RequestView {
                host: HostView { tunnel_endpoints: r.host.tunnel_endpoints + seq![v], ..r.host },
                ..r
            }),
        ),
        becomes(seq!["--iface"@, v] + rest, r) == becomes(
            rest,
            (RequestView {
                host: HostView { interfaces: r.host.interfaces + seq![v], ..r.host },
                ..r
            }),
        ),
        becomes(seq!["--cgroup"@, v] + rest, r) == becomes(
            rest,
            (RequestView { host: HostView { cgroups: r.host.cgroups + seq![v], ..r.host }, ..r }),
        ),
{
    lemma_how_flags_differ();
    assert(r.host.admin_peers + seq![v] =~= r.host.admin_peers.push(v));
    assert(r.host.tunnel_endpoints + seq![v] =~= r.host.tunnel_endpoints.push(v));
    assert(r.host.interfaces + seq![v] =~= r.host.interfaces.push(v));
    assert(r.host.cgroups + seq![v] =~= r.host.cgroups.push(v));
    lemma_one_value("--admin"@, v, ArgView::Admin(v), rest, r);
    lemma_one_value("--endpoint"@, v, ArgView::Endpoint(v), rest, r);
    lemma_one_value("--iface"@, v, ArgView::Interface(v), rest, r);
    lemma_one_value("--cgroup"@, v, ArgView::Cgroup(v), rest, r);
}

/// A filter is an interface and a number with an equals sign between them.
pub proof fn a_filter_is_taken_as_it_is_written(
    name: Seq<char>,
    n: u8,
    rest: Seq<Seq<char>>,
    r: RequestView,
)
    requires
        forall|i: int| 0 <= i < name.len() ==> #[trigger] name[i] != '=',
    ensures
        becomes(seq!["--rp-filter"@, name + seq!['='] + dec(n as nat)] + rest, r) == becomes(
            rest,
            (RequestView {
                host: HostView { rp_filter: r.host.rp_filter + seq![(name, n)], ..r.host },
                ..r
            }),
        ),
{
    lemma_how_flags_differ();
    let v = name + seq!['='] + dec(n as nat);
    assert forall|i: int| 0 <= i < name.len() implies #[trigger] v[i] != '=' by {
        assert(v[i] == name[i]);
    }
    assert(v[name.len() as int] == '=');
    crate::text::lemma_find_char_is(v, '=', name.len() as int);
    assert(v.take(name.len() as int) =~= name);
    assert(v.skip(name.len() as int + 1) =~= dec(n as nat));
    crate::num::dec_reads_back(n as nat, u8::MAX as nat);
    assert(r.host.rp_filter + seq![(name, n)] =~= r.host.rp_filter.push((name, n)));
    lemma_one_value("--rp-filter"@, v, ArgView::Filter(name, n), rest, r);
}

/// A switch is thrown by its own name, whatever stands behind it.
pub proof fn a_switch_is_thrown_by_its_name(rest: Seq<Seq<char>>, r: RequestView)
    ensures
        becomes(seq!["--bare"@] + rest, r) == becomes(rest, r),
        becomes(seq!["--ip"@] + rest, r) == becomes(rest, (RequestView { show_ip: true, ..r })),
        becomes(seq!["--force"@] + rest, r) == becomes(rest, (RequestView { force: true, ..r })),
        becomes(seq!["--apply"@] + rest, r) == becomes(
            rest,
            (RequestView { task: Task::Apply, ..r }),
        ),
        becomes(seq!["--confirm"@] + rest, r) == becomes(
            rest,
            (RequestView { task: Task::Confirm, ..r }),
        ),
        becomes(seq!["--revert"@] + rest, r) == becomes(
            rest,
            (RequestView { task: Task::Revert, ..r }),
        ),
        becomes(seq!["--status"@] + rest, r) == becomes(
            rest,
            (RequestView { task: Task::Status, ..r }),
        ),
        becomes(seq![], r) == Some(r),
{
    lemma_how_flags_differ();
    lemma_one_switch("--bare"@, ArgView::Bare, rest, r);
    lemma_one_switch("--ip"@, ArgView::Ip, rest, r);
    lemma_one_switch("--force"@, ArgView::Force, rest, r);
    lemma_one_switch("--apply"@, ArgView::Task(Task::Apply), rest, r);
    lemma_one_switch("--confirm"@, ArgView::Task(Task::Confirm), rest, r);
    lemma_one_switch("--revert"@, ArgView::Task(Task::Revert), rest, r);
    lemma_one_switch("--status"@, ArgView::Task(Task::Status), rest, r);
}

/// A path and a rule are asked for as they are spelled.
pub proof fn a_path_and_a_rule_are_asked_for_as_spelled(
    p: PathView,
    rule: RuleView,
    rest: Seq<Seq<char>>,
    r: RequestView,
)
    requires
        nameable(p),
        rule_writable(rule),
    ensures
        becomes(seq!["--default"@, path_spelling(p)] + rest, r) == becomes(
            rest,
            (RequestView { policy: PolicyView { default_path: p, ..r.policy }, ..r }),
        ),
        becomes(seq!["--rule"@, rule_spelling(rule)] + rest, r) == becomes(
            rest,
            (RequestView {
                policy: PolicyView { rules: r.policy.rules + seq![rule], ..r.policy },
                ..r
            }),
        ),
{
    lemma_how_flags_differ();
    every_spelling_names_its_path_and_nothing_else_does(path_spelling(p), p);
    a_rule_reads_back(rule);
    assert(r.policy.rules + seq![rule] =~= r.policy.rules.push(rule));
    lemma_one_value("--default"@, path_spelling(p), ArgView::Default(p), rest, r);
    lemma_one_value("--rule"@, rule_spelling(rule), ArgView::Rule(rule), rest, r);
}

/// What does not begin like an argument is none: it is refused by name, and
/// nothing behind it is looked at.
pub proof fn what_is_no_argument_is_refused(s: Seq<char>, rest: Seq<Seq<char>>)
    requires
        s.len() < 3 || s[0] != '-' || s[1] != '-',
    ensures
        args_read(seq![s] + rest) == Err::<Seq<ArgView>, ComplaintView>(
            ComplaintView { what: "unknown argument"@, subject: s },
        ),
{
    reveal_strlit("--default");
    reveal_strlit("--rule");
    reveal_strlit("--admin");
    reveal_strlit("--endpoint");
    reveal_strlit("--iface");
    reveal_strlit("--cgroup");
    reveal_strlit("--tor-trans");
    reveal_strlit("--tor-dns");
    reveal_strlit("--tor-uid");
    reveal_strlit("--rp-filter");
    reveal_strlit("--deadman");
    reveal_strlit("--bare");
    reveal_strlit("--ip");
    reveal_strlit("--force");
    reveal_strlit("--apply");
    reveal_strlit("--confirm");
    reveal_strlit("--revert");
    reveal_strlit("--status");
    let all = seq![s] + rest;
    assert(all[0] == s);
    assert("--default"@[0] == '-' && "--default"@[1] == '-' && "--default"@.len() >= 3);
    assert("--rule"@[0] == '-' && "--rule"@[1] == '-' && "--rule"@.len() >= 3);
    assert("--admin"@[0] == '-' && "--admin"@[1] == '-' && "--admin"@.len() >= 3);
    assert("--endpoint"@[0] == '-' && "--endpoint"@[1] == '-' && "--endpoint"@.len() >= 3);
    assert("--iface"@[0] == '-' && "--iface"@[1] == '-' && "--iface"@.len() >= 3);
    assert("--cgroup"@[0] == '-' && "--cgroup"@[1] == '-' && "--cgroup"@.len() >= 3);
    assert("--tor-trans"@[0] == '-' && "--tor-trans"@[1] == '-' && "--tor-trans"@.len() >= 3);
    assert("--tor-dns"@[0] == '-' && "--tor-dns"@[1] == '-' && "--tor-dns"@.len() >= 3);
    assert("--tor-uid"@[0] == '-' && "--tor-uid"@[1] == '-' && "--tor-uid"@.len() >= 3);
    assert("--rp-filter"@[0] == '-' && "--rp-filter"@[1] == '-' && "--rp-filter"@.len() >= 3);
    assert("--deadman"@[0] == '-' && "--deadman"@[1] == '-' && "--deadman"@.len() >= 3);
    assert("--bare"@[0] == '-' && "--bare"@[1] == '-' && "--bare"@.len() >= 3);
    assert("--ip"@[0] == '-' && "--ip"@[1] == '-' && "--ip"@.len() >= 3);
    assert("--force"@[0] == '-' && "--force"@[1] == '-' && "--force"@.len() >= 3);
    assert("--apply"@[0] == '-' && "--apply"@[1] == '-' && "--apply"@.len() >= 3);
    assert("--confirm"@[0] == '-' && "--confirm"@[1] == '-' && "--confirm"@.len() >= 3);
    assert("--revert"@[0] == '-' && "--revert"@[1] == '-' && "--revert"@.len() >= 3);
    assert("--status"@[0] == '-' && "--status"@[1] == '-' && "--status"@.len() >= 3);
}

/// An argument that needs a value and has none behind it is refused by name. Only
/// Tor's ports and its uid can be taken away like that.
pub proof fn a_value_that_is_missing_is_missed(r: RequestView)
    ensures
        forall|flag: Seq<char>|
            flag == "--default"@ || flag == "--rule"@ || flag == "--admin"@ || flag
                == "--endpoint"@ || flag == "--iface"@ || flag == "--cgroup"@ || flag
                == "--rp-filter"@ || flag == "--deadman"@ ==> (#[trigger] args_read(
                seq![flag],
            ) matches Err(c) && c.subject == flag),
        becomes(seq!["--tor-trans"@], r) == Some(
            (RequestView { host: HostView { tor_trans_port: None, ..r.host }, ..r }),
        ),
        becomes(seq!["--tor-dns"@], r) == Some(
            (RequestView { host: HostView { tor_dns_port: None, ..r.host }, ..r }),
        ),
        becomes(seq!["--tor-uid"@], r) == Some(
            (RequestView { host: HostView { tor_uid: None, ..r.host }, ..r }),
        ),
{
    lemma_how_flags_differ();
    let none = Seq::<Seq<char>>::empty();
    let t = seq!["--tor-trans"@];
    let d = seq!["--tor-dns"@];
    let u = seq!["--tor-uid"@];
    assert(t.skip(1) =~= none && d.skip(1) =~= none && u.skip(1) =~= none);
    assert(t + none =~= t && d + none =~= d && u + none =~= u);
    lemma_one_argument(t, ArgView::TorTrans(None), none, r);
    lemma_one_argument(d, ArgView::TorDns(None), none, r);
    lemma_one_argument(u, ArgView::TorUid(None), none, r);
}

/// Nothing is asked for before anything is: no rule, nothing redirected, nobody
/// protected, nothing forced or applied, and two minutes to confirm.
pub proof fn nothing_is_asked_for_at_first(host: HostView)
    ensures
        ({
            let r = asked_at_first(host);
            &&& r.policy.rules.len() == 0
            &&& r.policy.default_path is Direct
            &&& r.host.admin_peers.len() == 0
            &&& r.host == (HostView { admin_peers: r.host.admin_peers, ..host })
            &&& !r.show_ip
            &&& !r.force
            &&& r.task == Task::Print
            &&& r.deadman_secs == 120
        }),
{
}

} // verus!
