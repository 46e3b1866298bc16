//! What a ruleset does to a packet.
//!
//! The ruleset is text, and the kernel reads it line by line: a line that asks
//! something a packet does not answer is passed over, a line that ends in
//! `return` or `redirect` ends the chain, and any other goes on to the next. Here
//! the lines of the two chains that decide about traffic are given that meaning,
//! and from it follows which way a packet takes.

use vstd::prelude::*;
use vstd::string::*;

use crate::addr::{read_addr, IpAddr};
use crate::guarantees::a_path_has_a_mark_exactly_where_it_needs_a_tunnel;
use crate::num::{dec, hex};
use crate::policy::{
    daddr_text, default_mark, default_redirects, exclusions, mark_chain, mark_for, mark_line,
    mark_text, most_tunnels, own_mark, redirect, rule_marks, rule_redirects, saved_mark,
    tor_chain, tor_itself, tor_marking, tor_markings, HostView, LaneView, PathView, PolicyView, RuleView, SelectorView,
    MARK_BASE, MARK_CHAIN, NAT_CHAIN,
};

verus! {

/// What a packet carries, as far as a ruleset asks.
pub enum Load {
    Tcp,
    /// A question to a name server, over UDP.
    Dns,
    Other,
}

/// A packet that leaves a socket of this machine, and what has become of it.
pub struct Packet {
    /// The senders, in the words of nftables, that its socket belongs to.
    pub senders: Set<Seq<char>>,
    pub to: IpAddr,
    pub load: Load,
    /// Whether it stays on the machine.
    pub loopback: bool,
    /// Whether its connection was there before.
    pub established: bool,
    /// The mark of the packet; 0 is none.
    pub mark: u32,
    /// The mark of its connection; 0 is none.
    pub saved: u32,
    /// The local port it was handed to.
    pub redirected: Option<u16>,
}

impl Packet {
    pub open spec fn from(self, sender: SelectorView) -> bool {
        self.senders.contains(sender.matching())
    }

    pub open spec fn destined_for(self, addr: Seq<char>) -> bool {
        read_addr(addr) matches Some(a) && a.flat() == self.to.flat()
    }
}

/// One line of a chain.
pub enum Step {
    /// A line that says nothing to the kernel.
    Comment(Seq<char>),
    /// A connection that was decided about keeps its mark.
    Keep,
    LeaveLocal,
    LeaveOpen,
    LeavePeer(Seq<char>),
    LeaveEndpoint(Seq<char>),
    LeaveUid(u32),
    Leave(SelectorView),
    /// Leave a sender, but for this uid.
    LeaveOthers(SelectorView, u32),
    Mark(SelectorView, u32),
    MarkUid(u32, u32),
    SaveUid(u32),
    MarkRest(u32),
    Save,
    Tcp(SelectorView, HostView),
    Dns(SelectorView, HostView),
    TcpRest(u16),
    DnsRest(u16),
}

/// A chain goes on with a packet, or ends with it.
pub enum Then {
    On(Packet),
    End(Packet),
}

impl Step {
    /// The line, as it is written.
    pub open spec fn line(self) -> Seq<char> {
        match self {
            Step::Comment(c) => c,
            Step::Keep => "    ct mark != 0x0 meta mark set ct mark return"@,
            Step::LeaveLocal => "    oif lo return"@,
            Step::LeaveOpen =>
                "    ct state established,related return   # a connection that predates this policy"@,
            Step::LeavePeer(a) => "    "@ + daddr_text(a)
                + " return   # the session administering this host"@,
            Step::LeaveEndpoint(a) => "    "@ + daddr_text(a)
                + " return   # a tunnel's own endpoint"@,
            Step::LeaveUid(u) => "    meta skuid "@ + dec(u as nat) + " return"@,
            Step::Leave(s) => "    "@ + s.matching() + " return"@,
            Step::LeaveOthers(s, u) => "    "@ + s.matching() + " meta skuid != "@ + dec(u as nat)
                + " return"@,
            Step::Mark(s, m) => "    "@ + s.matching() + " meta mark set 0x"@ + hex(m as nat)
                + " ct mark set meta mark return"@,
            Step::MarkUid(u, m) => "    meta skuid "@ + dec(u as nat) + " meta mark set 0x"@ + hex(
                m as nat,
            ),
            Step::SaveUid(u) => "    meta skuid "@ + dec(u as nat)
                + " ct mark set meta mark return"@,
            Step::MarkRest(m) => "    meta mark set 0x"@ + hex(m as nat)
                + "   # default for everything else"@,
            Step::Save => "    meta mark != 0x0 ct mark set meta mark"@,
            Step::Tcp(s, h) => "    "@ + s.matching() + " meta l4proto tcp redirect to :"@ + dec(
                h.trans() as nat,
            ),
            Step::Dns(s, h) => "    "@ + s.matching() + " udp dport 53 redirect to :"@ + dec(
                h.dns() as nat,
            ),
            Step::TcpRest(port) => "    meta l4proto tcp redirect to :"@ + dec(port as nat),
            Step::DnsRest(port) => "    udp dport 53 redirect to :"@ + dec(port as nat),
        }
    }

    /// What the line does to a packet.
    pub open spec fn meet(self, p: Packet) -> Then {
        match self {
            Step::Comment(_) => Then::On(p),
            Step::Keep => if p.saved != 0 {
                Then::End(Packet { mark: p.saved, ..p })
            } else {
                Then::On(p)
            },
            Step::LeaveLocal => end_if(p.loopback, p),
            Step::LeaveOpen => end_if(p.established, p),
            Step::LeavePeer(a) => end_if(p.destined_for(a), p),
            Step::LeaveEndpoint(a) => end_if(p.destined_for(a), p),
            Step::LeaveUid(u) => end_if(p.from(SelectorView::User(u)), p),
            Step::Leave(s) => end_if(p.from(s), p),
            Step::LeaveOthers(s, u) => end_if(p.from(s) && !p.from(SelectorView::User(u)), p),
            Step::Mark(s, m) => if p.from(s) {
                Then::End(Packet { mark: m, saved: m, ..p })
            } else {
                Then::On(p)
            },
            Step::MarkUid(u, m) => if p.from(SelectorView::User(u)) {
                Then::On(Packet { mark: m, ..p })
            } else {
                Then::On(p)
            },
            Step::SaveUid(u) => if p.from(SelectorView::User(u)) {
                Then::End(Packet { saved: p.mark, ..p })
            } else {
                Then::On(p)
            },
            Step::MarkRest(m) => Then::On(Packet { mark: m, ..p }),
            Step::Save => if p.mark != 0 {
                Then::On(Packet { saved: p.mark, ..p })
            } else {
                Then::On(p)
            },
            Step::Tcp(s, h) => if p.from(s) && p.load is Tcp {
                Then::End(Packet { redirected: Some(h.trans()), ..p })
            } else {
                Then::On(p)
            },
            Step::Dns(s, h) => if p.from(s) && p.load is Dns {
                Then::End(Packet { redirected: Some(h.dns()), ..p })
            } else {
                Then::On(p)
            },
            Step::TcpRest(port) => if p.load is Tcp {
                Then::End(Packet { redirected: Some(port), ..p })
            } else {
                Then::On(p)
            },
            Step::DnsRest(port) => if p.load is Dns {
                Then::End(Packet { redirected: Some(port), ..p })
            } else {
                Then::On(p)
            },
        }
    }
}

pub open spec fn end_if(cond: bool, p: Packet) -> Then {
    if cond {
        Then::End(p)
    } else {
        Then::On(p)
    }
}

/// The lines of some steps.
pub open spec fn step_lines(steps: Seq<Step>) -> Seq<Seq<char>> {
    Seq::new(steps.len(), |i: int| steps[i].line())
}

/// What becomes of a packet that walks through a chain.
pub open spec fn walk(steps: Seq<Step>, p: Packet) -> Packet
    decreases steps.len(),
{
    if steps.len() == 0 {
        p
    } else {
        match steps[0].meet(p) {
            Then::On(q) => walk(steps.skip(1), q),
            Then::End(q) => q,
        }
    }
}

// ---------------------------------------------------------------------------
// The chains
// ---------------------------------------------------------------------------

pub open spec fn exclusion_steps(host: HostView) -> Seq<Step> {
    seq![
        Step::Comment("    # Exclusions first. Order is the safety."@),
        Step::Comment("    # A connection this policy already decided about keeps that decision."@),
        Step::Keep,
        Step::LeaveLocal,
        Step::LeaveOpen,
    ] + Seq::new(host.admin_peers.len(), |i: int| Step::LeavePeer(host.admin_peers[i]))
        + Seq::new(host.tunnel_endpoints.len(), |i: int| Step::LeaveEndpoint(
            host.tunnel_endpoints[i],
        ))
}

pub open spec fn tor_itself_steps(host: HostView) -> Seq<Step> {
    match host.tor_uid {
        Some(uid) => seq![
            Step::Comment("    # Tor's own packets, or they never reach a relay."@),
            Step::LeaveUid(uid),
        ],
        None => seq![],
    }
}

pub open spec fn redirect_steps(rule: RuleView, host: HostView) -> Seq<Step> {
    if rule.path.tor() {
        seq![
            Step::Tcp(rule.selector, host),
            Step::Dns(rule.selector, host),
            Step::Leave(rule.selector),
        ]
    } else {
        seq![Step::Leave(rule.selector)]
    }
}

pub open spec fn rule_redirect_steps(rules: Seq<RuleView>, host: HostView) -> Seq<Step>
    decreases rules.len(),
{
    if rules.len() == 0 {
        seq![]
    } else {
        rule_redirect_steps(rules.drop_last(), host) + redirect_steps(rules.last(), host)
    }
}

pub open spec fn default_redirect_steps(policy: PolicyView, host: HostView) -> Seq<Step> {
    if policy.default_path.tor() {
        seq![Step::TcpRest(host.trans()), Step::DnsRest(host.dns())]
    } else {
        seq![]
    }
}

/// The chain that hands traffic to Tor.
pub open spec fn tor_steps(policy: PolicyView, host: HostView) -> Seq<Step> {
    exclusion_steps(host) + tor_itself_steps(host) + rule_redirect_steps(policy.rules, host)
        + default_redirect_steps(policy, host)
}

pub open spec fn tor_marking_steps(
    path: PathView,
    host: HostView,
    marks: Seq<(Seq<char>, u32)>,
) -> Seq<Step> {
    match (path, host.tor_uid, mark_for(marks, path.label())) {
        (PathView::TorViaVpn { .. }, Some(uid), Some(mark)) => seq![
            Step::Comment("    # Tor itself takes the tunnel; apps take Tor."@),
            Step::MarkUid(uid, mark),
            Step::SaveUid(uid),
        ],
        _ => seq![],
    }
}

pub open spec fn tor_markings_steps(
    paths: Seq<PathView>,
    host: HostView,
    marks: Seq<(Seq<char>, u32)>,
) -> Seq<Step>
    decreases paths.len(),
{
    if paths.len() == 0 {
        seq![]
    } else {
        tor_markings_steps(paths.drop_last(), host, marks) + tor_marking_steps(
            paths.last(),
            host,
            marks,
        )
    }
}

pub open spec fn marking_step(
    rule: RuleView,
    host: HostView,
    marks: Seq<(Seq<char>, u32)>,
) -> Step {
    match (own_mark(rule.path, marks), host.tor_uid) {
        (Some(mark), _) => Step::Mark(rule.selector, mark),
        (None, Some(uid)) if rule.path.tor() => Step::LeaveOthers(rule.selector, uid),
        _ => Step::Leave(rule.selector),
    }
}

pub open spec fn rule_mark_steps(
    rules: Seq<RuleView>,
    host: HostView,
    marks: Seq<(Seq<char>, u32)>,
) -> Seq<Step> {
    Seq::new(rules.len(), |i: int| marking_step(rules[i], host, marks))
}

pub open spec fn rest_steps(policy: PolicyView, marks: Seq<(Seq<char>, u32)>) -> Seq<Step> {
    (match own_mark(policy.default_path, marks) {
        Some(mark) => seq![Step::MarkRest(mark)],
        None => seq![],
    }) + (if marks.len() > 0 {
        seq![
            Step::Comment("    # Remember it, so the rest of the connection follows."@),
            Step::Save,
        ]
    } else {
        seq![]
    })
}

/// The chain that marks traffic for the tunnels.
pub open spec fn mark_steps(
    policy: PolicyView,
    host: HostView,
    marks: Seq<(Seq<char>, u32)>,
) -> Seq<Step> {
    exclusion_steps(host) + rule_mark_steps(policy.rules, host, marks) + tor_markings_steps(
        policy.paths(),
        host,
        marks,
    ) + rest_steps(policy, marks)
}

/// What becomes of a packet: it meets the chain that marks, and then, where
/// there is one, the chain that hands traffic to Tor.
pub open spec fn journey(policy: PolicyView, host: HostView, p: Packet) -> Packet {
    let q = walk(mark_steps(policy, host, policy.marks()), p);
    if policy.uses_tor() {
        walk(tor_steps(policy, host), q)
    } else {
        q
    }
}

// ---------------------------------------------------------------------------
// The chains are their steps
// ---------------------------------------------------------------------------

proof fn lemma_lines_of_parts(a: Seq<Step>, b: Seq<Step>)
    ensures
        step_lines(a + b) == step_lines(a) + step_lines(b),
{
    assert(step_lines(a + b) =~= step_lines(a) + step_lines(b));
}

proof fn lemma_exclusion_lines(host: HostView)
    ensures
        step_lines(exclusion_steps(host)) == exclusions(host),
{
    assert(step_lines(exclusion_steps(host)) =~= exclusions(host));
}

proof fn lemma_redirect_lines(rules: Seq<RuleView>, host: HostView)
    ensures
        step_lines(rule_redirect_steps(rules, host)) == rule_redirects(rules, host),
    decreases rules.len(),
{
    if rules.len() == 0 {
        assert(step_lines(seq![]) =~= seq![]);
    } else {
        lemma_redirect_lines(rules.drop_last(), host);
        let last = redirect_steps(rules.last(), host);
        assert(step_lines(last) =~= redirect(rules.last(), host));
        lemma_lines_of_parts(rule_redirect_steps(rules.drop_last(), host), last);
    }
}

proof fn lemma_tor_marking_lines(
    paths: Seq<PathView>,
    host: HostView,
    marks: Seq<(Seq<char>, u32)>,
)
    ensures
        step_lines(tor_markings_steps(paths, host, marks)) == tor_markings(paths, host, marks),
    decreases paths.len(),
{
    if paths.len() == 0 {
        assert(step_lines(seq![]) =~= seq![]);
    } else {
        lemma_tor_marking_lines(paths.drop_last(), host, marks);
        let last = tor_marking_steps(paths.last(), host, marks);
        if let (Some(uid), Some(mark)) = (host.tor_uid, mark_for(marks, paths.last().label())) {
            lemma_mark_written_after("    meta skuid "@ + dec(uid as nat), mark);
        }
        assert(step_lines(last) =~= tor_marking(paths.last(), host, marks));
        lemma_lines_of_parts(tor_markings_steps(paths.drop_last(), host, marks), last);
    }
}

/// A mark is written in hexadecimal behind `0x`.
proof fn lemma_mark_line(sender: SelectorView, m: u32)
    ensures
        mark_line(sender, m) == Step::Mark(sender, m).line(),
{
    lemma_mark_written_after("    "@ + sender.matching(), m);
    assert(mark_line(sender, m) =~= "    "@ + sender.matching() + " meta mark set "@ + mark_text(m)
        + " ct mark set meta mark return"@);
}

proof fn lemma_mark_written_after(front: Seq<char>, m: u32)
    ensures
        front + " meta mark set "@ + mark_text(m) == front + " meta mark set 0x"@ + hex(m as nat),
{
    reveal_strlit(" meta mark set ");
    reveal_strlit(" meta mark set 0x");
    reveal_strlit("0x");
    assert(front + " meta mark set "@ + mark_text(m) =~= front + " meta mark set 0x"@ + hex(
        m as nat,
    ));
}

proof fn lemma_mark_written(m: u32, back: Seq<char>)
    ensures
        "    meta mark set "@ + mark_text(m) + back == "    meta mark set 0x"@ + hex(m as nat)
            + back,
{
    reveal_strlit("    meta mark set ");
    reveal_strlit("    meta mark set 0x");
    reveal_strlit("0x");
    assert("    meta mark set "@ + mark_text(m) =~= "    meta mark set 0x"@ + hex(m as nat));
}

/// The lines of the chain that hands traffic to Tor are those of its steps.
pub proof fn the_tor_chain_is_its_steps(policy: PolicyView, host: HostView)
    ensures
        tor_chain(policy, host) == seq![
            "  chain "@ + NAT_CHAIN@ + " {"@,
            "    type nat hook output priority dstnat; policy accept;"@,
        ] + step_lines(tor_steps(policy, host)) + seq!["  }"@],
{
    let a = exclusion_steps(host);
    let b = tor_itself_steps(host);
    let c = rule_redirect_steps(policy.rules, host);
    let d = default_redirect_steps(policy, host);
    lemma_exclusion_lines(host);
    assert(step_lines(b) =~= tor_itself(host));
    lemma_redirect_lines(policy.rules, host);
    assert(step_lines(d) =~= default_redirects(policy, host));
    lemma_lines_of_parts(a, b);
    lemma_lines_of_parts(a + b, c);
    lemma_lines_of_parts(a + b + c, d);
    assert(tor_chain(policy, host) =~= seq![
        "  chain "@ + NAT_CHAIN@ + " {"@,
        "    type nat hook output priority dstnat; policy accept;"@,
    ] + step_lines(tor_steps(policy, host)) + seq!["  }"@]);
}

/// The lines of the chain that marks traffic are those of its steps.
pub proof fn the_marking_chain_is_its_steps(
    policy: PolicyView,
    host: HostView,
    marks: Seq<(Seq<char>, u32)>,
)
    ensures
        mark_chain(policy, host, marks) == seq![
            "  chain "@ + MARK_CHAIN@ + " {"@,
            "    type route hook output priority mangle; policy accept;"@,
        ] + step_lines(mark_steps(policy, host, marks)) + seq!["  }"@],
{
    let a = exclusion_steps(host);
    let b = rule_mark_steps(policy.rules, host, marks);
    let c = tor_markings_steps(policy.paths(), host, marks);
    let d = rest_steps(policy, marks);
    lemma_exclusion_lines(host);
    lemma_tor_marking_lines(policy.paths(), host, marks);
    assert forall|i: int| 0 <= i < policy.rules.len() implies #[trigger] step_lines(b)[i]
        == rule_marks(policy.rules, host, marks)[i] by {
        if let Some(m) = own_mark(policy.rules[i].path, marks) {
            lemma_mark_line(policy.rules[i].selector, m);
        }
    }
    assert(step_lines(b) =~= rule_marks(policy.rules, host, marks));
    if let Some(m) = own_mark(policy.default_path, marks) {
        lemma_mark_written(m, "   # default for everything else"@);
    }
    assert(step_lines(d) =~= default_mark(policy, marks) + saved_mark(marks));
    lemma_lines_of_parts(a, b);
    lemma_lines_of_parts(a + b, c);
    lemma_lines_of_parts(a + b + c, d);
    assert(mark_chain(policy, host, marks) =~= seq![
        "  chain "@ + MARK_CHAIN@ + " {"@,
        "    type route hook output priority mangle; policy accept;"@,
    ] + step_lines(mark_steps(policy, host, marks)) + seq!["  }"@]);
}

// ---------------------------------------------------------------------------
// Walking
// ---------------------------------------------------------------------------

proof fn lemma_regroup(a: Seq<Step>, b: Seq<Step>, c: Seq<Step>, d: Seq<Step>)
    ensures
        a + b + c + d == a + (b + (c + d)),
        a + b + c + d == a + (b + c + d),
{
    assert(a + b + c + d =~= a + (b + (c + d)));
    assert(a + b + c + d =~= a + (b + c + d));
}

/// The chain that hands traffic to Tor, with the exclusions apart.
proof fn lemma_tor_parts(policy: PolicyView, host: HostView)
    ensures
        tor_steps(policy, host) == exclusion_steps(host) + (tor_itself_steps(host) + (
        rule_redirect_steps(policy.rules, host) + default_redirect_steps(policy, host))),
{
    lemma_regroup(
        exclusion_steps(host),
        tor_itself_steps(host),
        rule_redirect_steps(policy.rules, host),
        default_redirect_steps(policy, host),
    );
}

/// The chain that marks, with the exclusions apart.
proof fn lemma_mark_parts(policy: PolicyView, host: HostView, marks: Seq<(Seq<char>, u32)>)
    ensures
        mark_steps(policy, host, marks) == exclusion_steps(host) + (rule_mark_steps(
            policy.rules,
            host,
            marks,
        ) + (tor_markings_steps(policy.paths(), host, marks) + rest_steps(policy, marks))),
{
    lemma_regroup(
        exclusion_steps(host),
        rule_mark_steps(policy.rules, host, marks),
        tor_markings_steps(policy.paths(), host, marks),
        rest_steps(policy, marks),
    );
}

/// Whether steps let a packet pass unchanged.
spec fn passes(steps: Seq<Step>, p: Packet) -> bool {
    forall|i: int| 0 <= i < steps.len() ==> (#[trigger] steps[i]).meet(p) == Then::On(p)
}

proof fn lemma_passed(a: Seq<Step>, b: Seq<Step>, p: Packet)
    requires
        passes(a, p),
    ensures
        walk(a + b, p) == walk(b, p),
    decreases a.len(),
{
    if a.len() == 0 {
        assert(a + b =~= b);
    } else {
        assert(a[0].meet(p) == Then::On(p));
        let t = a.skip(1);
        assert forall|i: int| 0 <= i < t.len() implies (#[trigger] t[i]).meet(p) == Then::On(p) by {
            assert(t[i] == a[i + 1]);
        }
        lemma_passed(t, b, p);
        assert((a + b)[0] == a[0]);
        assert((a + b).skip(1) =~= t + b);
    }
}

proof fn lemma_ended(a: Seq<Step>, b: Seq<Step>, p: Packet, i: int)
    requires
        0 <= i < a.len(),
        passes(a.take(i), p),
        a[i].meet(p) is End,
    ensures
        walk(a + b, p) == a[i].meet(p)->End_0,
{
    let rest = a.skip(i) + b;
    assert(a + b =~= a.take(i) + rest);
    lemma_passed(a.take(i), rest, p);
    assert(rest[0] == a[i]);
}

proof fn lemma_passes_one_more(s: Seq<Step>, p: Packet, n: int)
    requires
        0 <= n < s.len(),
        passes(s.take(n), p),
        s[n].meet(p) == Then::On(p),
    ensures
        passes(s.take(n + 1), p),
{
    let m = s.take(n + 1);
    assert forall|i: int| 0 <= i < m.len() implies (#[trigger] m[i]).meet(p) == Then::On(p) by {
        if i < n {
            assert(s.take(n)[i] == m[i]);
        }
    }
}

/// Whether the exclusions let a packet through to the rules: it begins a
/// connection, leaves the machine, and goes to no address that is protected.
pub open spec fn decided_by_rules(p: Packet, host: HostView) -> bool {
    &&& p.saved == 0
    &&& !p.loopback
    &&& !p.established
    &&& forall|i: int|
        0 <= i < host.admin_peers.len() ==> !p.destined_for(#[trigger] host.admin_peers[i])
    &&& forall|i: int|
        0 <= i < host.tunnel_endpoints.len() ==> !p.destined_for(
            #[trigger] host.tunnel_endpoints[i],
        )
}

proof fn lemma_peer_at(host: HostView, i: int)
    requires
        0 <= i < host.admin_peers.len(),
    ensures
        exclusion_steps(host).len() > 5 + i,
        exclusion_steps(host)[5 + i] == Step::LeavePeer(host.admin_peers[i]),
{
}

proof fn lemma_endpoint_at(host: HostView, i: int)
    requires
        0 <= i < host.tunnel_endpoints.len(),
    ensures
        exclusion_steps(host).len() > 5 + host.admin_peers.len() + i,
        exclusion_steps(host)[5 + host.admin_peers.len() + i] == Step::LeaveEndpoint(
            host.tunnel_endpoints[i],
        ),
{
}

proof fn lemma_one_not_excluded(p: Packet, host: HostView, i: int)
    requires
        decided_by_rules(p, host),
        0 <= i < exclusion_steps(host).len(),
    ensures
        exclusion_steps(host)[i].meet(p) == Then::On(p),
{
    let n = host.admin_peers.len();
    if 5 <= i < 5 + n {
        lemma_peer_at(host, i - 5);
    } else if i >= 5 + n {
        lemma_endpoint_at(host, i - 5 - n);
    }
}

proof fn lemma_not_excluded(p: Packet, host: HostView)
    requires
        decided_by_rules(p, host),
    ensures
        passes(exclusion_steps(host), p),
{
    let e = exclusion_steps(host);
    assert forall|i: int| 0 <= i < e.len() implies (#[trigger] e[i]).meet(p) == Then::On(p) by {
        lemma_one_not_excluded(p, host, i);
    }
}

/// Whether a packet is sent by Tor itself.
pub open spec fn sent_by_tor(p: Packet, host: HostView) -> bool {
    host.tor_uid matches Some(uid) && p.from(SelectorView::User(uid))
}

/// Whether a rule decides about a packet: it names the packet's sender. A path
/// through Tor is for those whom Tor serves, so such a rule says nothing of what
/// Tor sends itself.
pub open spec fn decides(rule: RuleView, host: HostView, p: Packet) -> bool {
    p.from(rule.selector) && !(rule.path.tor() && sent_by_tor(p, host))
}

/// The path of the first rule that decides about a packet.
pub open spec fn ruled(rules: Seq<RuleView>, host: HostView, p: Packet) -> Option<PathView>
    decreases rules.len(),
{
    if rules.len() == 0 {
        None
    } else if decides(rules[0], host, p) {
        Some(rules[0].path)
    } else {
        ruled(rules.skip(1), host, p)
    }
}

/// The path that a packet is to take: that of the first rule that decides about
/// it, and that of everything else where none does.
pub open spec fn path_of(policy: PolicyView, host: HostView, p: Packet) -> PathView {
    match ruled(policy.rules, host, p) {
        Some(path) => path,
        None => policy.default_path,
    }
}

/// The port that a packet is handed to on its way into Tor.
pub open spec fn tor_port(p: Packet, host: HostView) -> Option<u16> {
    match p.load {
        Load::Tcp => Some(host.trans()),
        Load::Dns => Some(host.dns()),
        Load::Other => p.redirected,
    }
}

/// Where the rules leave a packet in the chain that marks.
spec fn marked_by(path: PathView, marks: Seq<(Seq<char>, u32)>, p: Packet) -> Packet {
    match own_mark(path, marks) {
        Some(m) => Packet { mark: m, saved: m, ..p },
        None => p,
    }
}

proof fn lemma_rest_marked(policy: PolicyView, marks: Seq<(Seq<char>, u32)>, p: Packet)
    requires
        p.mark == 0,
        p.saved == 0,
        own_mark(policy.default_path, marks) matches Some(m) ==> m != 0 && marks.len() > 0,
    ensures
        walk(rest_steps(policy, marks), p) == marked_by(policy.default_path, marks, p),
{
    let rest = rest_steps(policy, marks);
    match own_mark(policy.default_path, marks) {
        Some(m) => {
            let q = Packet { mark: m, ..p };
            let t = rest.skip(1);
            let u = t.skip(1);
            assert(rest[0] == Step::MarkRest(m));
            assert(t[0] is Comment);
            assert(u[0] == Step::Save);
            assert(walk(u.skip(1), Packet { saved: m, ..q }) == (Packet { saved: m, ..q }));
            assert(walk(u, q) == (Packet { saved: m, ..q }));
            assert(walk(t, q) == walk(u, q));
            assert(walk(rest, p) == walk(t, q));
        },
        None => {
            lemma_passed(rest, seq![], p);
            assert(rest + Seq::<Step>::empty() =~= rest);
        },
    }
}

#[verifier::spinoff_prover]
#[verifier::rlimit(60)]
proof fn lemma_marks_walked(
    rules: Seq<RuleView>,
    host: HostView,
    marks: Seq<(Seq<char>, u32)>,
    rest: Seq<Step>,
    p: Packet,
)
    ensures
        walk(rule_mark_steps(rules, host, marks) + rest, p) == (match ruled(rules, host, p) {
            Some(path) => marked_by(path, marks, p),
            None => walk(rest, p),
        }),
    decreases rules.len(),
{
    let all = rule_mark_steps(rules, host, marks) + rest;
    if rules.len() == 0 {
        assert(all =~= rest);
    } else {
        let step = marking_step(rules[0], host, marks);
        assert(all[0] == step);
        assert(all.skip(1) =~= rule_mark_steps(rules.skip(1), host, marks) + rest);
        lemma_marks_walked(rules.skip(1), host, marks, rest, p);
    }
}

proof fn lemma_redirects_front(rules: Seq<RuleView>, host: HostView)
    requires
        rules.len() > 0,
    ensures
        rule_redirect_steps(rules, host) == redirect_steps(rules[0], host) + rule_redirect_steps(
            rules.skip(1),
            host,
        ),
    decreases rules.len(),
{
    let front = rules.drop_last();
    if rules.len() == 1 {
        assert(front =~= seq![]);
        assert(rules.skip(1) =~= seq![]);
        assert(rule_redirect_steps(rules, host) =~= redirect_steps(rules[0], host)
            + rule_redirect_steps(rules.skip(1), host));
    } else {
        lemma_redirects_front(front, host);
        assert(front.skip(1) =~= rules.skip(1).drop_last());
        assert(rules.skip(1).last() == rules.last());
        assert(rule_redirect_steps(rules, host) =~= redirect_steps(rules[0], host)
            + rule_redirect_steps(rules.skip(1), host));
    }
}

/// Where the rules leave a packet in the chain that hands traffic to Tor.
spec fn redirected_by(path: PathView, host: HostView, p: Packet) -> Packet {
    if path.tor() {
        Packet { redirected: tor_port(p, host), ..p }
    } else {
        p
    }
}

proof fn lemma_rest_redirected(policy: PolicyView, host: HostView, p: Packet)
    ensures
        walk(default_redirect_steps(policy, host), p) == redirected_by(
            policy.default_path,
            host,
            p,
        ),
{
    let rest = default_redirect_steps(policy, host);
    if policy.default_path.tor() {
        let t = rest.skip(1);
        let u = t.skip(1);
        assert(rest[0] == Step::TcpRest(host.trans()));
        assert(t[0] == Step::DnsRest(host.dns()));
        assert(u.len() == 0);
        assert(walk(u, p) == p);
        assert(walk(t, p) == (match t[0].meet(p) {
            Then::On(q) => walk(u, q),
            Then::End(q) => q,
        }));
    }
}

#[verifier::spinoff_prover]
#[verifier::rlimit(60)]
proof fn lemma_rule_redirected(rule: RuleView, host: HostView, later: Seq<Step>, p: Packet)
    ensures
        walk(redirect_steps(rule, host) + later, p) == (if p.from(rule.selector) {
            redirected_by(rule.path, host, p)
        } else {
            walk(later, p)
        }),
{
    let own = redirect_steps(rule, host);
    if !p.from(rule.selector) {
        lemma_passed(own, later, p);
    } else if rule.path.tor() {
        let i: int = if p.load is Tcp {
            0
        } else if p.load is Dns {
            1
        } else {
            2
        };
        lemma_ended(own, later, p, i);
    } else {
        lemma_ended(own, later, p, 0);
    }
}

proof fn lemma_redirects_walked(
    rules: Seq<RuleView>,
    policy: PolicyView,
    host: HostView,
    p: Packet,
)
    requires
        !sent_by_tor(p, host),
    ensures
        walk(rule_redirect_steps(rules, host) + default_redirect_steps(policy, host), p)
            == redirected_by(
            match ruled(rules, host, p) {
                Some(path) => path,
                None => policy.default_path,
            },
            host,
            p,
        ),
    decreases rules.len(),
{
    let rest = default_redirect_steps(policy, host);
    if rules.len() == 0 {
        assert(rule_redirect_steps(rules, host) + rest =~= rest);
        lemma_rest_redirected(policy, host, p);
    } else {
        let own = redirect_steps(rules[0], host);
        let later = rule_redirect_steps(rules.skip(1), host) + rest;
        let all = rule_redirect_steps(rules, host) + rest;
        lemma_redirects_front(rules, host);
        assert(all =~= own + later);
        lemma_redirects_walked(rules.skip(1), policy, host, p);
        lemma_rule_redirected(rules[0], host, later, p);
    }
}

/// The marks that a policy's paths carry are marks.
proof fn lemma_mark_is_one(policy: PolicyView, path: PathView)
    requires
        policy.tunnels().len() <= most_tunnels(),
        policy.routes().contains(path),
    ensures
        mark_for(policy.marks(), path.label()) matches Some(m) ==> m >= MARK_BASE
            && policy.marks().len() > 0,
        mark_for(policy.marks(), path.label()) is Some <==> path.tunnel() is Some,
{
    a_path_has_a_mark_exactly_where_it_needs_a_tunnel(policy, path);
    if let Some(m) = mark_for(policy.marks(), path.label()) {
        let lane = LaneView { path, mark: m };
        crate::guarantees::lemma_lanes(policy);
        assert(policy.lanes().contains(lane));
        let n = crate::policy::numbered(policy.tunnels());
        assert(n.contains(lane));
        let k = choose|k: int| 0 <= k < n.len() && n[k] == lane;
        assert(lane.mark == MARK_BASE + k);
        assert(policy.lanes().len() > 0);
    }
}

proof fn lemma_ruled_is_a_rule(rules: Seq<RuleView>, host: HostView, p: Packet)
    ensures
        ruled(rules, host, p) matches Some(path) ==> exists|i: int|
            0 <= i < rules.len() && (#[trigger] rules[i]).path == path,
    decreases rules.len(),
{
    if rules.len() > 0 && !decides(rules[0], host, p) {
        let t = rules.skip(1);
        lemma_ruled_is_a_rule(t, host, p);
        if let Some(path) = ruled(t, host, p) {
            let i = choose|i: int| 0 <= i < t.len() && (#[trigger] t[i]).path == path;
            assert(rules[i + 1] == t[i]);
        }
    } else if rules.len() > 0 {
        assert(rules[0].path == rules[0].path);
    }
}

proof fn lemma_path_is_a_route(policy: PolicyView, host: HostView, p: Packet)
    ensures
        policy.routes().contains(path_of(policy, host, p)),
        policy.routes().contains(policy.default_path),
{
    assert(policy.routes().last() == policy.default_path);
    lemma_ruled_is_a_rule(policy.rules, host, p);
    if let Some(path) = ruled(policy.rules, host, p) {
        let i = choose|i: int|
            0 <= i < policy.rules.len() && (#[trigger] policy.rules[i]).path == path;
        assert(policy.routes()[i] == path);
    }
}

proof fn lemma_tor_markings_pass(
    paths: Seq<PathView>,
    host: HostView,
    marks: Seq<(Seq<char>, u32)>,
    p: Packet,
)
    requires
        !sent_by_tor(p, host),
    ensures
        passes(tor_markings_steps(paths, host, marks), p),
    decreases paths.len(),
{
    if paths.len() > 0 {
        lemma_tor_markings_pass(paths.drop_last(), host, marks, p);
    }
}

/// Where a packet is left by the chain that marks.
proof fn lemma_marked(policy: PolicyView, host: HostView, p: Packet)
    requires
        policy.tunnels().len() <= most_tunnels(),
        decided_by_rules(p, host),
        p.mark == 0,
        sent_by_tor(p, host) ==> ruled(policy.rules, host, p) is Some || tors_path(
            policy.paths(),
        ) is None,
    ensures
        walk(mark_steps(policy, host, policy.marks()), p) == marked_by(
            path_of(policy, host, p),
            policy.marks(),
            p,
        ),
{
    let marks = policy.marks();
    lemma_path_is_a_route(policy, host, p);
    lemma_mark_is_one(policy, policy.default_path);
    let e = exclusion_steps(host);
    let t = tor_markings_steps(policy.paths(), host, marks);
    let d = rest_steps(policy, marks);
    let r = rule_mark_steps(policy.rules, host, marks);
    lemma_not_excluded(p, host);
    lemma_mark_parts(policy, host, marks);
    lemma_passed(e, r + (t + d), p);
    lemma_marks_walked(policy.rules, host, marks, t + d, p);
    if ruled(policy.rules, host, p) is None {
        if sent_by_tor(p, host) {
            lemma_tors_path(policy.paths());
            lemma_tor_marked(policy.paths(), host, marks, d, p);
        } else {
            lemma_tor_markings_pass(policy.paths(), host, marks, p);
            lemma_passed(t, d, p);
        }
        lemma_rest_marked(policy, marks, p);
    }
}

/// What a path means for a packet: a tunnel's traffic is marked for the tunnel,
/// the mark is saved onto the connection, and Tor never sees it. What is direct
/// is left as it was. What goes to Tor is handed to Tor, its TCP and its DNS, and
/// carries no mark.
pub open spec fn sent_along(path: PathView, policy: PolicyView, host: HostView, p: Packet) -> Packet {
    match path {
        PathView::Direct => p,
        PathView::Vpn { .. } => {
            let m = mark_for(policy.marks(), path.label())->0;
            Packet { mark: m, saved: m, ..p }
        },
        _ => Packet { redirected: tor_port(p, host), ..p },
    }
}

/// Traffic takes the path of the first rule that names its sender, and that of
/// everything else only where no rule does.
#[verifier::spinoff_prover]
#[verifier::rlimit(60)]
pub proof fn traffic_takes_the_path_of_its_rule(policy: PolicyView, host: HostView, p: Packet)
    requires
        policy.tunnels().len() <= most_tunnels(),
        decided_by_rules(p, host),
        p.mark == 0,
        sent_by_tor(p, host) ==> ruled(policy.rules, host, p) is Some,
    ensures
        path_of(policy, host, p) is Vpn ==> mark_for(
            policy.marks(),
            path_of(policy, host, p).label(),
        ) is Some,
        journey(policy, host, p) == sent_along(path_of(policy, host, p), policy, host, p),
{
    let marks = policy.marks();
    let path = path_of(policy, host, p);
    lemma_path_is_a_route(policy, host, p);
    lemma_mark_is_one(policy, path);
    lemma_marked(policy, host, p);
    let q = walk(mark_steps(policy, host, marks), p);
    assert(q == marked_by(path, marks, p));
    if sent_by_tor(p, host) {
        lemma_tor_is_ruled_elsewhere(policy.rules, host, p);
    }
    if policy.uses_tor() {
        if own_mark(path, marks) is Some {
            lemma_keeps(policy, host, q);
        } else if sent_by_tor(p, host) {
            lemma_own_packets_leave(policy, host, p);
        } else {
            lemma_handed(policy, host, p);
        }
    } else {
        assert(!path.tor()) by {
            let i = choose|i: int| 0 <= i < policy.routes().len() && policy.routes()[i] == path;
            assert(!policy.routes()[i].tor());
        }
    }
}

proof fn lemma_tor_is_ruled_elsewhere(rules: Seq<RuleView>, host: HostView, p: Packet)
    requires
        sent_by_tor(p, host),
    ensures
        ruled(rules, host, p) matches Some(path) ==> !path.tor(),
    decreases rules.len(),
{
    if rules.len() > 0 && !decides(rules[0], host, p) {
        lemma_tor_is_ruled_elsewhere(rules.skip(1), host, p);
    }
}

/// A connection that was decided about keeps its mark in either chain.
#[verifier::spinoff_prover]
#[verifier::rlimit(60)]
proof fn lemma_keeps(policy: PolicyView, host: HostView, q: Packet)
    requires
        q.saved != 0,
    ensures
        walk(tor_steps(policy, host), q) == (Packet { mark: q.saved, ..q }),
        walk(mark_steps(policy, host, policy.marks()), q) == (Packet { mark: q.saved, ..q }),
{
    let e = exclusion_steps(host);
    let marks = policy.marks();
    let rest = tor_itself_steps(host) + (rule_redirect_steps(policy.rules, host)
        + default_redirect_steps(policy, host));
    let other = rule_mark_steps(policy.rules, host, marks) + (tor_markings_steps(
        policy.paths(),
        host,
        marks,
    ) + rest_steps(policy, marks));
    lemma_tor_parts(policy, host);
    lemma_mark_parts(policy, host, marks);
    assert(passes(e.take(2), q));
    assert(e[2] == Step::Keep);
    lemma_ended(e, rest, q, 2);
    lemma_ended(e, other, q, 2);
}

proof fn lemma_others_pass(host: HostView, p: Packet)
    requires
        !sent_by_tor(p, host),
    ensures
        passes(tor_itself_steps(host), p),
{
}

/// What the chain that hands traffic to Tor does to a packet that is not Tor's
/// own.
#[verifier::spinoff_prover]
#[verifier::rlimit(60)]
proof fn lemma_handed(policy: PolicyView, host: HostView, p: Packet)
    requires
        decided_by_rules(p, host),
        !sent_by_tor(p, host),
    ensures
        walk(tor_steps(policy, host), p) == redirected_by(path_of(policy, host, p), host, p),
{
    let e = exclusion_steps(host);
    let own = tor_itself_steps(host);
    let r = rule_redirect_steps(policy.rules, host) + default_redirect_steps(policy, host);
    lemma_not_excluded(p, host);
    lemma_tor_parts(policy, host);
    lemma_passed(e, own + r, p);
    lemma_others_pass(host, p);
    lemma_passed(own, r, p);
    lemma_redirects_walked(policy.rules, policy, host, p);
}

// ---------------------------------------------------------------------------
// Tor's own traffic
// ---------------------------------------------------------------------------

/// The first of some paths that leads through Tor and Tor through a tunnel.
pub open spec fn tors_path(paths: Seq<PathView>) -> Option<PathView>
    decreases paths.len(),
{
    if paths.len() == 0 {
        None
    } else {
        match tors_path(paths.drop_last()) {
            Some(p) => Some(p),
            None => if paths.last() is TorViaVpn {
                Some(paths.last())
            } else {
                None
            },
        }
    }
}

proof fn lemma_tors_path(paths: Seq<PathView>)
    ensures
        tors_path(paths) matches Some(p) ==> paths.contains(p) && p is TorViaVpn,
        tors_path(paths) is None ==> forall|i: int|
            0 <= i < paths.len() ==> !((#[trigger] paths[i]) is TorViaVpn),
    decreases paths.len(),
{
    if paths.len() > 0 {
        let t = paths.drop_last();
        lemma_tors_path(t);
        if let Some(p) = tors_path(t) {
            let i = choose|i: int| 0 <= i < t.len() && t[i] == p;
            assert(paths[i] == p);
        } else {
            assert(paths[paths.len() - 1] == paths.last());
            assert forall|i: int| 0 <= i < paths.len() && paths.last() is TorViaVpn == false implies !((
            #[trigger] paths[i]) is TorViaVpn) by {
                if i < t.len() {
                    assert(t[i] == paths[i]);
                }
            }
        }
    }
}

#[verifier::spinoff_prover]
#[verifier::rlimit(60)]
proof fn lemma_one_tor_marked(
    path: PathView,
    host: HostView,
    marks: Seq<(Seq<char>, u32)>,
    rest: Seq<Step>,
    p: Packet,
)
    requires
        sent_by_tor(p, host),
        path is TorViaVpn ==> mark_for(marks, path.label()) is Some,
    ensures
        walk(tor_marking_steps(path, host, marks) + rest, p) == (if path is TorViaVpn {
            let m = mark_for(marks, path.label())->0;
            Packet { mark: m, saved: m, ..p }
        } else {
            walk(rest, p)
        }),
{
    let own = tor_marking_steps(path, host, marks);
    let a = own + rest;
    if path is TorViaVpn {
        let m = mark_for(marks, path.label())->0;
        let uid = host.tor_uid->0;
        let q = Packet { mark: m, ..p };
        let b = a.skip(1);
        let c = b.skip(1);
        assert(a[0] is Comment);
        assert(b[0] == Step::MarkUid(uid, m));
        assert(c[0] == Step::SaveUid(uid));
        assert(walk(c, q) == (Packet { saved: m, ..q }));
        assert(walk(b, p) == walk(c, q));
        assert(walk(a, p) == walk(b, p));
    } else {
        assert(a =~= rest);
    }
}

proof fn lemma_tor_marked(
    paths: Seq<PathView>,
    host: HostView,
    marks: Seq<(Seq<char>, u32)>,
    rest: Seq<Step>,
    p: Packet,
)
    requires
        sent_by_tor(p, host),
        forall|i: int|
            0 <= i < paths.len() && (#[trigger] paths[i]) is TorViaVpn ==> mark_for(
                marks,
                paths[i].label(),
            ) is Some,
    ensures
        walk(tor_markings_steps(paths, host, marks) + rest, p) == (match tors_path(paths) {
            Some(path) => {
                let m = mark_for(marks, path.label())->0;
                Packet { mark: m, saved: m, ..p }
            },
            None => walk(rest, p),
        }),
    decreases paths.len(),
{
    let all = tor_markings_steps(paths, host, marks) + rest;
    if paths.len() == 0 {
        assert(all =~= rest);
    } else {
        let t = paths.drop_last();
        let last = tor_marking_steps(paths.last(), host, marks);
        assert(all =~= tor_markings_steps(t, host, marks) + (last + rest));
        assert forall|i: int| 0 <= i < t.len() && (#[trigger] t[i]) is TorViaVpn implies mark_for(
            marks,
            t[i].label(),
        ) is Some by {
            assert(t[i] == paths[i]);
        }
        lemma_tor_marked(t, host, marks, last + rest, p);
        assert(paths[paths.len() - 1] == paths.last());
        lemma_one_tor_marked(paths.last(), host, marks, rest, p);
    }
}

proof fn lemma_tors_marks(policy: PolicyView)
    requires
        policy.tunnels().len() <= most_tunnels(),
    ensures
        forall|i: int|
            0 <= i < policy.paths().len() && (#[trigger] policy.paths()[i]) is TorViaVpn
                ==> mark_for(policy.marks(), policy.paths()[i].label()) is Some,
        tors_path(policy.paths()) matches Some(path) ==> mark_for(
            policy.marks(),
            path.label(),
        ) matches Some(m) && m != 0,
{
    let paths = policy.paths();
    crate::guarantees::lemma_distinct(policy.routes());
    lemma_tors_path(paths);
    assert forall|i: int| 0 <= i < paths.len() && (#[trigger] paths[i]) is TorViaVpn implies mark_for(
        policy.marks(),
        paths[i].label(),
    ) is Some by {
        assert(paths.contains(paths[i]));
        lemma_mark_is_one(policy, paths[i]);
    }
    if let Some(path) = tors_path(paths) {
        assert(policy.routes().contains(path));
        lemma_mark_is_one(policy, path);
    }
}

/// Tor's own traffic is never handed back to Tor. Where a path leads through Tor
/// and Tor through a tunnel, and no rule sends Tor itself elsewhere, it is Tor's
/// own traffic that is marked for the tunnel. Where there is no such path, it
/// goes the way of everything else, as far as that is not through Tor.
#[verifier::spinoff_prover]
#[verifier::rlimit(60)]
pub proof fn tor_itself_takes_the_tunnel(policy: PolicyView, host: HostView, p: Packet)
    requires
        policy.tunnels().len() <= most_tunnels(),
        decided_by_rules(p, host),
        p.mark == 0,
        sent_by_tor(p, host),
        ruled(policy.rules, host, p) is None,
    ensures
        match tors_path(policy.paths()) {
            Some(path) => {
                &&& mark_for(policy.marks(), path.label()) is Some
                &&& journey(policy, host, p) == Packet {
                    mark: mark_for(policy.marks(), path.label())->0,
                    saved: mark_for(policy.marks(), path.label())->0,
                    ..p
                }
            },
            None => journey(policy, host, p) == (if policy.default_path.tor() {
                p
            } else {
                sent_along(policy.default_path, policy, host, p)
            }),
        },
{
    let marks = policy.marks();
    let paths = policy.paths();
    lemma_tors_marks(policy);
    match tors_path(paths) {
        Some(path) => {
            let e = exclusion_steps(host);
            let t = tor_markings_steps(paths, host, marks);
            let d = rest_steps(policy, marks);
            let r = rule_mark_steps(policy.rules, host, marks);
            lemma_not_excluded(p, host);
            lemma_mark_parts(policy, host, marks);
            lemma_passed(e, r + (t + d), p);
            lemma_marks_walked(policy.rules, host, marks, t + d, p);
            lemma_tor_marked(paths, host, marks, d, p);
            let q = walk(mark_steps(policy, host, marks), p);
            lemma_keeps(policy, host, q);
        },
        None => {
            lemma_path_is_a_route(policy, host, p);
            lemma_mark_is_one(policy, policy.default_path);
            lemma_marked(policy, host, p);
            let q = walk(mark_steps(policy, host, marks), p);
            if q.saved != 0 {
                lemma_keeps(policy, host, q);
            } else {
                lemma_own_packets_leave(policy, host, q);
            }
        },
    }
}

proof fn lemma_own_packets_leave(policy: PolicyView, host: HostView, p: Packet)
    requires
        decided_by_rules(p, host),
        sent_by_tor(p, host),
    ensures
        walk(tor_steps(policy, host), p) == p,
{
    let e = exclusion_steps(host);
    let own = tor_itself_steps(host);
    let r = rule_redirect_steps(policy.rules, host) + default_redirect_steps(policy, host);
    lemma_not_excluded(p, host);
    lemma_tor_parts(policy, host);
    lemma_passed(e, own + r, p);
    assert(passes(own.take(1), p));
    lemma_ended(own, r, p, 1);
}

// ---------------------------------------------------------------------------
// What is left alone
// ---------------------------------------------------------------------------

/// Whether an exclusion holds a packet back from the rules.
pub open spec fn excluded(p: Packet, host: HostView) -> bool {
    ||| p.loopback
    ||| p.established
    ||| exists|i: int|
        0 <= i < host.admin_peers.len() && p.destined_for(#[trigger] host.admin_peers[i])
    ||| exists|i: int|
        0 <= i < host.tunnel_endpoints.len() && p.destined_for(
            #[trigger] host.tunnel_endpoints[i],
        )
}

/// A packet that is excluded does not pass all the exclusions.
proof fn lemma_some_exclusion(p: Packet, host: HostView)
    requires
        p.saved == 0,
        excluded(p, host),
    ensures
        !passes(exclusion_steps(host), p),
{
    let e = exclusion_steps(host);
    let k = host.admin_peers.len();
    if passes(e, p) {
        assert(e[3] == Step::LeaveLocal && e[4] == Step::LeaveOpen);
        assert(e[3].meet(p) == Then::On(p));
        assert(e[4].meet(p) == Then::On(p));
        if exists|i: int|
            0 <= i < host.admin_peers.len() && p.destined_for(#[trigger] host.admin_peers[i]) {
            let i = choose|i: int|
                0 <= i < host.admin_peers.len() && p.destined_for(#[trigger] host.admin_peers[i]);
            lemma_peer_at(host, i);
            assert(e[5 + i].meet(p) == Then::On(p));
        } else {
            let i = choose|i: int|
                0 <= i < host.tunnel_endpoints.len() && p.destined_for(
                    #[trigger] host.tunnel_endpoints[i],
                );
            lemma_endpoint_at(host, i);
            assert(e[5 + k + i].meet(p) == Then::On(p));
        }
    }
}

/// An exclusion either lets a packet pass or ends the chain with it unchanged.
proof fn lemma_exclusion_meets(p: Packet, host: HostView, n: int)
    requires
        p.saved == 0,
        0 <= n < exclusion_steps(host).len(),
    ensures
        exclusion_steps(host)[n].meet(p) == Then::On(p) || exclusion_steps(host)[n].meet(p)
            == Then::End(p),
{
    let k = host.admin_peers.len();
    if 5 <= n < 5 + k {
        lemma_peer_at(host, n - 5);
    } else if n >= 5 + k {
        lemma_endpoint_at(host, n - 5 - k);
    }
}

#[verifier::spinoff_prover]
#[verifier::rlimit(60)]
proof fn lemma_excluded(steps: Seq<Step>, p: Packet, host: HostView, n: int)
    requires
        p.saved == 0,
        excluded(p, host),
        0 <= n <= exclusion_steps(host).len(),
        passes(exclusion_steps(host).take(n), p),
    ensures
        walk(exclusion_steps(host) + steps, p) == p,
    decreases exclusion_steps(host).len() - n,
{
    let e = exclusion_steps(host);
    if n == e.len() {
        assert(e.take(n) =~= e);
        lemma_some_exclusion(p, host);
    } else {
        lemma_exclusion_meets(p, host, n);
        if e[n].meet(p) is End {
            lemma_ended(e, steps, p, n);
        } else {
            lemma_passes_one_more(e, p, n);
            lemma_excluded(steps, p, host, n + 1);
        }
    }
}

/// Nothing is done to what is excluded: what stays on the machine, what is open
/// already, the session of every administrator, and what goes to the endpoint of
/// a tunnel. A connection that was decided about keeps its mark, and Tor does not
/// see it.
#[verifier::spinoff_prover]
#[verifier::rlimit(60)]
pub proof fn what_is_excluded_is_left_alone(policy: PolicyView, host: HostView, p: Packet)
    ensures
        p.saved == 0 && excluded(p, host) ==> journey(policy, host, p) == p,
        p.saved != 0 ==> journey(policy, host, p) == (Packet { mark: p.saved, ..p }),
{
    if p.saved != 0 {
        lemma_keeps(policy, host, p);
        lemma_keeps(policy, host, Packet { mark: p.saved, ..p });
    } else if excluded(p, host) {
        let e = exclusion_steps(host);
        let marks = policy.marks();
        let rest = tor_itself_steps(host) + (rule_redirect_steps(policy.rules, host)
            + default_redirect_steps(policy, host));
        let other = rule_mark_steps(policy.rules, host, marks) + (tor_markings_steps(
            policy.paths(),
            host,
            marks,
        ) + rest_steps(policy, marks));
        lemma_tor_parts(policy, host);
        lemma_mark_parts(policy, host, marks);
        assert(e.take(0) =~= seq![]);
        lemma_excluded(rest, p, host, 0);
        lemma_excluded(other, p, host, 0);
    }
}

} // verus!
