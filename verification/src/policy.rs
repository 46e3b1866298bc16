//! Turning "this app goes through Tor" into rules a kernel will accept.
//!
//! The dangerous part of per-app routing is not the rule somebody meant to
//! write. It is the four they did not:
//!
//! * **Their own session.** Redirect everything and the SSH connection they
//!   are typing into goes with it.
//! * **The tunnel's own packets.** Route a VPN client's traffic into the VPN
//!   and it cannot reach its server to build the tunnel.
//! * **Tor's own traffic.** Send Tor's output into Tor and it never reaches a
//!   relay.
//! * **DNS.** Route an app's TCP through Tor and leave its DNS alone, and
//!   every site it visits is still announced in plaintext to the resolver.
//!
//! Each is generated here rather than remembered, and [`Plan::preflight`]
//! refuses a plan that is missing one.
//!
//! Nothing here executes anything. It produces text: an nftables ruleset, `ip`
//! commands, and torrc lines. Applying them is a separate, deliberate step.

use vstd::prelude::*;
use vstd::string::*;

use crate::addr::{read_addr, IpAddr};
use crate::num::{dec, hex, push_dec, push_hex};
use crate::order::{lemma_push_contains, lex_le, sort, stable_sort, views, Ranked, Sortable};
use crate::text::{
    copies, copy, debug_str, debugged, fields, opt_text, same, split, texts, trim_char,
    trimmed_char, unlines, with_line_feeds,
};

verus! {

// ---------------------------------------------------------------------------
// What a policy is
// ---------------------------------------------------------------------------

/// Where an application's traffic should go.
#[derive(Debug, PartialEq, Eq, PartialOrd, Ord)]
pub enum Path {
    /// Straight out of the default route, as it goes today.
    Direct,
    /// Into a tunnel interface. The interface carries the traffic; it is not
    /// brought up here.
    Vpn { interface: String },
    /// Transparently into Tor, TCP and DNS both.
    Tor,
    /// Into Tor, with Tor's own traffic carried by the tunnel first.
    ///
    /// This is the ordering people mean by "Tor over VPN": the ISP sees a VPN
    /// connection, the VPN provider sees Tor traffic, and the Tor guard sees
    /// the VPN's address.
    TorViaVpn { interface: String },
}

/// What a [`Path`] says.
pub enum PathView {
    Direct,
    Vpn { interface: Seq<char> },
    Tor,
    TorViaVpn { interface: Seq<char> },
}

impl PathView {
    pub open spec fn label(self) -> Seq<char> {
        match self {
            PathView::Direct => "direct"@,
            PathView::Vpn { interface } => "vpn:"@ + interface,
            PathView::Tor => "tor"@,
            PathView::TorViaVpn { interface } => "tor-via-"@ + interface,
        }
    }

    /// Whether traffic on this path is handed to Tor.
    pub open spec fn tor(self) -> bool {
        self is Tor || self is TorViaVpn
    }

    /// The tunnel interface this path needs.
    pub open spec fn tunnel(self) -> Option<Seq<char>> {
        match self {
            PathView::Vpn { interface } => Some(interface),
            PathView::TorViaVpn { interface } => Some(interface),
            PathView::Direct | PathView::Tor => None,
        }
    }
}

impl View for Path {
    type V = PathView;

    open spec fn view(&self) -> PathView {
        match *self {
            Path::Direct => PathView::Direct,
            Path::Vpn { interface } => PathView::Vpn { interface: interface@ },
            Path::Tor => PathView::Tor,
            Path::TorViaVpn { interface } => PathView::TorViaVpn { interface: interface@ },
        }
    }
}

impl Clone for Path {
    fn clone(&self) -> (r: Self)
        ensures
            r@ == self@,
    {
        match self {
            Path::Direct => Path::Direct,
            Path::Vpn { interface } => Path::Vpn { interface: copy(interface.as_str()) },
            Path::Tor => Path::Tor,
            Path::TorViaVpn { interface } => Path::TorViaVpn { interface: copy(interface.as_str()) },
        }
    }
}

impl Path {
    /// A short label for a UI.
    pub fn label(&self) -> (r: String)
        ensures
            r@ == self@.label(),
    {
        match self {
            Path::Direct => String::from_str("direct"),
            Path::Vpn { interface } => {
                let mut s: String = String::from_str("vpn:");
                s.append(interface.as_str());
                s
            },
            Path::Tor => String::from_str("tor"),
            Path::TorViaVpn { interface } => {
                let mut s: String = String::from_str("tor-via-");
                s.append(interface.as_str());
                s
            },
        }
    }

    /// Whether traffic on this path is handed to Tor.
    pub fn uses_tor(&self) -> (r: bool)
        ensures
            r == self@.tor(),
    {
        match self {
            Path::Tor | Path::TorViaVpn { .. } => true,
            Path::Direct | Path::Vpn { .. } => false,
        }
    }

    /// The tunnel interface this path needs, if any.
    pub fn interface(&self) -> (r: Option<&str>)
        ensures
            opt_text(r) == self@.tunnel(),
    {
        match self {
            Path::Vpn { interface } => Some(interface.as_str()),
            Path::TorViaVpn { interface } => Some(interface.as_str()),
            Path::Direct | Path::Tor => None,
        }
    }
}

/// What a rule matches on.
///
/// All three are things the kernel can test on the socket that owns an
/// outgoing packet: the decision is made from the sender, not from the address
/// it is heading to.
#[derive(Debug, PartialEq, Eq, PartialOrd, Ord)]
pub enum Selector {
    /// A cgroup v2 path, as it appears under `/sys/fs/cgroup`.
    Cgroup(String),
    /// A systemd unit, resolved to its cgroup.
    Unit(String),
    /// Everything a user runs.
    User(u32),
}

/// What a [`Selector`] says.
pub enum SelectorView {
    Cgroup(Seq<char>),
    Unit(Seq<char>),
    User(u32),
}

impl SelectorView {
    /// The nftables expression that matches this sender.
    ///
    /// The level is the depth of the path that is tested.
    pub open spec fn matching(self) -> Seq<char> {
        match self {
            SelectorView::Cgroup(p) => "socket cgroupv2 level "@ + dec(
                split(trim_char(p, '/'), '/').len(),
            ) + " \""@ + trim_char(p, '/') + "\""@,
            SelectorView::Unit(u) => "socket cgroupv2 level 2 \"system.slice/"@ + u + "\""@,
            SelectorView::User(uid) => "meta skuid "@ + dec(uid as nat),
        }
    }

    pub open spec fn label(self) -> Seq<char> {
        match self {
            SelectorView::Cgroup(p) => p,
            SelectorView::Unit(u) => u,
            SelectorView::User(uid) => "uid "@ + dec(uid as nat),
        }
    }

    /// The cgroup that has to exist for the rule to load.
    pub open spec fn cgroup(self) -> Option<Seq<char>> {
        match self {
            SelectorView::Cgroup(p) => Some(trim_char(p, '/')),
            SelectorView::Unit(u) => Some("system.slice/"@ + u),
            SelectorView::User(_) => None,
        }
    }
}

impl View for Selector {
    type V = SelectorView;

    open spec fn view(&self) -> SelectorView {
        match *self {
            Selector::Cgroup(p) => SelectorView::Cgroup(p@),
            Selector::Unit(u) => SelectorView::Unit(u@),
            Selector::User(uid) => SelectorView::User(uid),
        }
    }
}

impl Clone for Selector {
    fn clone(&self) -> (r: Self)
        ensures
            r@ == self@,
    {
        match self {
            Selector::Cgroup(p) => Selector::Cgroup(copy(p.as_str())),
            Selector::Unit(u) => Selector::Unit(copy(u.as_str())),
            Selector::User(uid) => Selector::User(*uid),
        }
    }
}

impl Selector {
    /// The nftables expression that matches this sender.
    ///
    /// `socket cgroupv2 level N` compares the Nth component of the socket's
    /// cgroup path, so the level must match the depth of the path being tested
    /// or the rule silently matches nothing.
    pub fn nft_match(&self) -> (r: String)
        ensures
            r@ == self@.matching(),
    {
        match self {
            Selector::Cgroup(p) => {
                let p: String = trimmed_char(p.as_str(), '/');
                let f: Vec<String> = fields(p.as_str(), '/');
                assert(texts(f@).len() == f@.len());
                let mut s: String = String::from_str("socket cgroupv2 level ");
                push_dec(&mut s, f.len() as u64);
                s.append(" \"");
                s.append(p.as_str());
                s.append("\"");
                s
            },
            Selector::Unit(u) => {
                let mut s: String = String::from_str("socket cgroupv2 level 2 \"system.slice/");
                s.append(u.as_str());
                s.append("\"");
                s
            },
            Selector::User(uid) => {
                let mut s: String = String::from_str("meta skuid ");
                push_dec(&mut s, *uid as u64);
                s
            },
        }
    }

    /// How to describe this in a UI.
    pub fn label(&self) -> (r: String)
        ensures
            r@ == self@.label(),
    {
        match self {
            Selector::Cgroup(p) => copy(p.as_str()),
            Selector::Unit(u) => copy(u.as_str()),
            Selector::User(uid) => {
                let mut s: String = String::from_str("uid ");
                push_dec(&mut s, *uid as u64);
                s
            },
        }
    }
}

/// One "send this through that".
#[derive(Debug, PartialEq, Eq)]
pub struct Rule {
    pub selector: Selector,
    pub path: Path,
}

/// What a [`Rule`] says.
pub struct RuleView {
    pub selector: SelectorView,
    pub path: PathView,
}

impl View for Rule {
    type V = RuleView;

    open spec fn view(&self) -> RuleView {
        RuleView { selector: self.selector@, path: self.path@ }
    }
}

impl Clone for Rule {
    fn clone(&self) -> (r: Self)
        ensures
            r@ == self@,
    {
        Rule { selector: self.selector.clone(), path: self.path.clone() }
    }
}

/// Facts about the host a policy is being compiled for.
///
/// Passed in rather than read, so that the compiler stays pure and the
/// preflight checks can be exercised against hosts this machine is not.
#[derive(Debug)]
pub struct Host {
    /// Interfaces that exist right now.
    pub interfaces: Vec<String>,
    /// Tor's transparent-proxy port, if it has one configured.
    pub tor_trans_port: Option<u16>,
    /// Tor's DNS port, if it has one configured.
    pub tor_dns_port: Option<u16>,
    /// The uid Tor runs as. Its own traffic must bypass the redirect.
    pub tor_uid: Option<u32>,
    /// Peer addresses of connections that must keep working: in practice,
    /// whoever is administering this machine right now.
    pub admin_peers: Vec<String>,
    /// Addresses that must stay reachable outside any tunnel, such as a VPN
    /// server's own endpoint.
    pub tunnel_endpoints: Vec<String>,
    /// `rp_filter` per interface, as the kernel reports it.
    ///
    /// 1 is strict: a packet is dropped unless the route back to its source is
    /// out the interface it arrived on. Policy routing makes the return path
    /// asymmetric by design, so strict filtering drops every reply.
    pub rp_filter: Vec<(String, u8)>,
    /// cgroup v2 paths that exist right now, relative to the cgroup root.
    ///
    /// nftables resolves a cgroup path to an id when the rule is loaded and
    /// rejects the whole ruleset if it cannot.
    pub cgroups: Vec<String>,
}

/// What a [`Host`] says.
pub struct HostView {
    pub interfaces: Seq<Seq<char>>,
    pub tor_trans_port: Option<u16>,
    pub tor_dns_port: Option<u16>,
    pub tor_uid: Option<u32>,
    pub admin_peers: Seq<Seq<char>>,
    pub tunnel_endpoints: Seq<Seq<char>>,
    pub rp_filter: Seq<(Seq<char>, u8)>,
    pub cgroups: Seq<Seq<char>>,
}

pub open spec fn filter_views(v: Seq<(String, u8)>) -> Seq<(Seq<char>, u8)> {
    Seq::new(v.len(), |i: int| (v[i].0@, v[i].1))
}

impl View for Host {
    type V = HostView;

    open spec fn view(&self) -> HostView {
        HostView {
            interfaces: texts(self.interfaces@),
            tor_trans_port: self.tor_trans_port,
            tor_dns_port: self.tor_dns_port,
            tor_uid: self.tor_uid,
            admin_peers: texts(self.admin_peers@),
            tunnel_endpoints: texts(self.tunnel_endpoints@),
            rp_filter: filter_views(self.rp_filter@),
            cgroups: texts(self.cgroups@),
        }
    }
}

pub open spec fn empty_host() -> HostView {
    HostView {
        interfaces: seq![],
        tor_trans_port: None,
        tor_dns_port: None,
        tor_uid: None,
        admin_peers: seq![],
        tunnel_endpoints: seq![],
        rp_filter: seq![],
        cgroups: seq![],
    }
}

impl Default for Host {
    /// A host of which nothing is known.
    fn default() -> (r: Self)
        ensures
            r@ == empty_host(),
    {
        let h: Host = Host {
            interfaces: Vec::new(),
            tor_trans_port: None,
            tor_dns_port: None,
            tor_uid: None,
            admin_peers: Vec::new(),
            tunnel_endpoints: Vec::new(),
            rp_filter: Vec::new(),
            cgroups: Vec::new(),
        };
        assert(h@.interfaces =~= Seq::<Seq<char>>::empty());
        assert(h@.admin_peers =~= Seq::<Seq<char>>::empty());
        assert(h@.tunnel_endpoints =~= Seq::<Seq<char>>::empty());
        assert(h@.rp_filter =~= Seq::<(Seq<char>, u8)>::empty());
        assert(h@.cgroups =~= Seq::<Seq<char>>::empty());
        h
    }
}

fn copy_filters(v: &Vec<(String, u8)>) -> (r: Vec<(String, u8)>)
    ensures
        filter_views(r@) == filter_views(v@),
{
    let mut out: Vec<(String, u8)> = Vec::new();
    let mut i: usize = 0;
    while i < v.len()
        invariant
            i <= v@.len(),
            filter_views(out@) =~= filter_views(v@).take(i as int),
        decreases v@.len() - i,
    {
        let ghost before = out@;
        out.push((copy(v[i].0.as_str()), v[i].1));
        assert(filter_views(out@) =~= filter_views(before).push((v@[i as int].0@, v@[i as int].1)));
        i += 1;
    }
    out
}

impl Clone for Host {
    fn clone(&self) -> (r: Self)
        ensures
            r@ == self@,
    {
        Host {
            interfaces: copies(&self.interfaces),
            tor_trans_port: self.tor_trans_port,
            tor_dns_port: self.tor_dns_port,
            tor_uid: self.tor_uid,
            admin_peers: copies(&self.admin_peers),
            tunnel_endpoints: copies(&self.tunnel_endpoints),
            rp_filter: copy_filters(&self.rp_filter),
            cgroups: copies(&self.cgroups),
        }
    }
}

/// A policy: ordered rules, and what happens to everything else.
#[derive(Debug)]
pub struct Policy {
    pub rules: Vec<Rule>,
    pub default_path: Path,
}

/// What a [`Policy`] says.
pub struct PolicyView {
    pub rules: Seq<RuleView>,
    pub default_path: PathView,
}

impl View for Policy {
    type V = PolicyView;

    open spec fn view(&self) -> PolicyView {
        PolicyView { rules: views(self.rules@), default_path: self.default_path@ }
    }
}

impl Default for Policy {
    /// No rules, and everything goes as it goes today.
    fn default() -> (r: Self)
        ensures
            r@ == (PolicyView { rules: seq![], default_path: PathView::Direct }),
    {
        let p: Policy = Policy { rules: Vec::new(), default_path: Path::Direct };
        assert(p@.rules =~= Seq::<RuleView>::empty());
        p
    }
}

impl Clone for Policy {
    fn clone(&self) -> (r: Self)
        ensures
            r@ == self@,
    {
        let mut rules: Vec<Rule> = Vec::new();
        let mut i: usize = 0;
        while i < self.rules.len()
            invariant
                i <= self.rules@.len(),
                views(rules@) =~= views(self.rules@).take(i as int),
            decreases self.rules@.len() - i,
        {
            let ghost before = rules@;
            rules.push(self.rules[i].clone());
            assert(views(rules@) =~= views(before).push(self.rules@[i as int]@));
            i += 1;
        }
        assert(views(rules@) =~= views(self.rules@));
        Policy { rules, default_path: self.default_path.clone() }
    }
}

// ---------------------------------------------------------------------------
// What a plan is
// ---------------------------------------------------------------------------

/// The first fwmark used. Arbitrary but distinctive, so a rule from this tool
/// is recognisable in someone else's ruleset.
pub const MARK_BASE: u32 = 0x7401;

/// Routing tables are numbered from here, one per mark.
pub const TABLE_BASE: u32 = 7401;

/// Routing rules get priorities from here, one per mark.
pub const PRIORITY_BASE: u32 = 1000;

/// The table name everything lives in, so the whole policy can be removed with
/// one `nft delete table`.
pub const TABLE: &'static str = "throughline";

/// Chain names, every one prefixed `tl_`. `redirect`, `mark` and `snat` are
/// nftables keywords and a chain cannot be named after one; the prefix keeps
/// every chain clear of them.
pub const NAT_CHAIN: &'static str = "tl_via_tor";

pub const MARK_CHAIN: &'static str = "tl_routing";

pub const MASQ_CHAIN: &'static str = "tl_masquerade";

/// The most tunnels a policy can tell apart: one mark each.
pub open spec fn most_tunnels() -> nat {
    (0xffff_fffe - MARK_BASE) as nat
}

/// The different values of a row of paths, in the order in which they first
/// come.
pub open spec fn distinct(s: Seq<PathView>) -> Seq<PathView>
    decreases s.len(),
{
    if s.len() == 0 {
        seq![]
    } else {
        let before = distinct(s.drop_last());
        if before.contains(s.last()) {
            before
        } else {
            before.push(s.last())
        }
    }
}

/// The paths of a row that need a tunnel.
pub open spec fn tunnelled(s: Seq<PathView>) -> Seq<PathView>
    decreases s.len(),
{
    if s.len() == 0 {
        seq![]
    } else if s.last().tunnel() is Some {
        tunnelled(s.drop_last()).push(s.last())
    } else {
        tunnelled(s.drop_last())
    }
}

/// A tunnel that a policy routes traffic into: the path it is for, and the mark
/// that leads there.
pub struct LaneView {
    pub path: PathView,
    pub mark: u32,
}

impl LaneView {
    pub open spec fn number(self) -> nat {
        (self.mark - MARK_BASE) as nat
    }

    /// The routing table of this lane.
    pub open spec fn table(self) -> nat {
        TABLE_BASE as nat + self.number()
    }

    /// The priority of this lane's routing rule.
    pub open spec fn priority(self) -> nat {
        PRIORITY_BASE as nat + self.number()
    }

    pub open spec fn interface(self) -> Seq<char> {
        match self.path.tunnel() {
            Some(i) => i,
            None => seq![],
        }
    }
}

impl Ranked for LaneView {
    open spec fn le(self, other: Self) -> bool {
        lex_le(self.path.label(), other.path.label())
    }

    proof fn le_total(a: Self, b: Self) {
        crate::order::lemma_lex_total(a.path.label(), b.path.label());
    }

    proof fn le_transitive(a: Self, b: Self, c: Self) {
        crate::order::lemma_lex_transitive(a.path.label(), b.path.label(), c.path.label());
    }
}

/// Tunnels with marks counted up from the first.
pub open spec fn numbered(tunnels: Seq<PathView>) -> Seq<LaneView> {
    Seq::new(
        tunnels.len(),
        |i: int| LaneView { path: tunnels[i], mark: (MARK_BASE + i) as u32 },
    )
}

/// The label and the mark of each lane.
pub open spec fn lane_marks(lanes: Seq<LaneView>) -> Seq<(Seq<char>, u32)> {
    Seq::new(lanes.len(), |i: int| (lanes[i].path.label(), lanes[i].mark))
}

/// The mark that a label stands for.
pub open spec fn mark_for(marks: Seq<(Seq<char>, u32)>, label: Seq<char>) -> Option<u32>
    decreases marks.len(),
{
    if marks.len() == 0 {
        None
    } else if marks[0].0 == label {
        Some(marks[0].1)
    } else {
        mark_for(marks.skip(1), label)
    }
}

/// `0x` and the digits of a mark.
pub open spec fn mark_text(mark: u32) -> Seq<char> {
    "0x"@ + hex(mark as nat)
}

impl PolicyView {
    /// Every path traffic may take under a policy.
    pub open spec fn routes(self) -> Seq<PathView> {
        Seq::new(self.rules.len(), |i: int| self.rules[i].path).push(self.default_path)
    }

    /// The different paths.
    pub open spec fn paths(self) -> Seq<PathView> {
        distinct(self.routes())
    }

    /// The different paths that need a tunnel.
    pub open spec fn tunnels(self) -> Seq<PathView> {
        tunnelled(self.paths())
    }

    /// Whether any traffic is handed to Tor.
    pub open spec fn uses_tor(self) -> bool {
        exists|i: int| 0 <= i < self.routes().len() && (#[trigger] self.routes()[i]).tor()
    }

    /// The tunnels in the order of their labels, each with its mark. Direct is
    /// the absence of a mark.
    pub open spec fn lanes(self) -> Seq<LaneView> {
        stable_sort(numbered(self.tunnels()))
    }

    pub open spec fn marks(self) -> Seq<(Seq<char>, u32)> {
        lane_marks(self.lanes())
    }
}

// ---------------------------------------------------------------------------
// The ruleset, line by line
// ---------------------------------------------------------------------------

/// The nftables match for "destined for this address", where `shown` is the
/// address as it is shown when it is none.
///
/// In an `inet` table `ip daddr` matches IPv4 only, and does not err on an IPv6
/// packet but evaluates false. A v4-mapped address is carried in v4 packets on
/// the wire. A hostname is not an address and cannot be matched on; it comes
/// out as a comment so it is visible rather than silently dropped.
pub open spec fn destined(addr: Seq<char>, shown: Seq<char>) -> Seq<char> {
    match read_addr(addr) {
        Some(a) => match a.flat() {
            IpAddr::V4(..) => "ip daddr "@ + a.flat().spelling(),
            IpAddr::V6(..) => "ip6 daddr "@ + a.spelling(),
        },
        None => "# unparseable address "@ + shown + ", not excluded"@,
    }
}

/// The match for an address.
pub open spec fn daddr_text(addr: Seq<char>) -> Seq<char> {
    destined(addr, debug_str(addr))
}

pub open spec fn peer_line(peer: Seq<char>) -> Seq<char> {
    "    "@ + daddr_text(peer) + " return   # the session administering this host"@
}

pub open spec fn endpoint_line(ep: Seq<char>) -> Seq<char> {
    "    "@ + daddr_text(ep) + " return   # a tunnel's own endpoint"@
}

pub open spec fn peer_lines(peers: Seq<Seq<char>>) -> Seq<Seq<char>> {
    Seq::new(peers.len(), |i: int| peer_line(peers[i]))
}

pub open spec fn endpoint_lines(eps: Seq<Seq<char>>) -> Seq<Seq<char>> {
    Seq::new(eps.len(), |i: int| endpoint_line(eps[i]))
}

/// What comes before anything else in every chain that decides about traffic.
///
/// The connection's mark is consulted first, so that a decision already made
/// for a connection is reapplied to the rest of it; only then are existing
/// connections left alone.
pub open spec fn exclusions(host: HostView) -> Seq<Seq<char>> {
    seq![
        "    # Exclusions first. Order is the safety."@,
        "    # A connection this policy already decided about keeps that decision."@,
        "    ct mark != 0x0 meta mark set ct mark return"@,
        "    oif lo return"@,
        "    ct state established,related return   # a connection that predates this policy"@,
    ] + peer_lines(host.admin_peers) + endpoint_lines(host.tunnel_endpoints)
}

impl HostView {
    pub open spec fn trans(self) -> u16 {
        match self.tor_trans_port {
            Some(p) => p,
            None => 9040,
        }
    }

    pub open spec fn dns(self) -> u16 {
        match self.tor_dns_port {
            Some(p) => p,
            None => 9053,
        }
    }
}

/// Tor's own packets go out as they are.
pub open spec fn tor_itself(host: HostView) -> Seq<Seq<char>> {
    match host.tor_uid {
        Some(uid) => seq![
            "    # Tor's own packets, or they never reach a relay."@,
            "    meta skuid "@ + dec(uid as nat) + " return"@,
        ],
        None => seq![],
    }
}

/// A sender's TCP goes to Tor's transparent port.
pub open spec fn tcp_line(sender: SelectorView, host: HostView) -> Seq<char> {
    "    "@ + sender.matching() + " meta l4proto tcp redirect to :"@ + dec(host.trans() as nat)
}

/// A sender's DNS goes to Tor's DNS port.
pub open spec fn dns_line(sender: SelectorView, host: HostView) -> Seq<char> {
    "    "@ + sender.matching() + " udp dport 53 redirect to :"@ + dec(host.dns() as nat)
}

/// A sender is decided about: the chain ends for it.
pub open spec fn leave_line(sender: SelectorView) -> Seq<char> {
    "    "@ + sender.matching() + " return"@
}

/// What a rule does in the chain that hands traffic to Tor: its TCP and the DNS
/// that belongs to it are handed over where the rule says so, and nothing that
/// follows is asked about its sender.
pub open spec fn redirect(rule: RuleView, host: HostView) -> Seq<Seq<char>> {
    if rule.path.tor() {
        seq![
            tcp_line(rule.selector, host),
            dns_line(rule.selector, host),
            leave_line(rule.selector),
        ]
    } else {
        seq![leave_line(rule.selector)]
    }
}

/// What the rules do there, in their order.
pub open spec fn rule_redirects(rules: Seq<RuleView>, host: HostView) -> Seq<Seq<char>>
    decreases rules.len(),
{
    if rules.len() == 0 {
        seq![]
    } else {
        rule_redirects(rules.drop_last(), host) + redirect(rules.last(), host)
    }
}

/// What everything else hands to Tor.
pub open spec fn default_redirects(policy: PolicyView, host: HostView) -> Seq<Seq<char>> {
    if policy.default_path.tor() {
        seq![
            "    meta l4proto tcp redirect to :"@ + dec(host.trans() as nat),
            "    udp dport 53 redirect to :"@ + dec(host.dns() as nat),
        ]
    } else {
        seq![]
    }
}

/// The chain that hands traffic to Tor.
pub open spec fn tor_chain(policy: PolicyView, host: HostView) -> Seq<Seq<char>> {
    seq![
        "  chain "@ + NAT_CHAIN@ + " {"@,
        "    type nat hook output priority dstnat; policy accept;"@,
    ] + exclusions(host) + tor_itself(host) + rule_redirects(policy.rules, host)
        + default_redirects(policy, host) + seq!["  }"@]
}

/// A sender is marked for a tunnel, the mark is saved onto the connection, and
/// the chain ends for it.
pub open spec fn mark_line(sender: SelectorView, mark: u32) -> Seq<char> {
    "    "@ + sender.matching() + " meta mark set "@ + mark_text(mark)
        + " ct mark set meta mark return"@
}

/// The mark that an application on a path carries itself. On the way to Tor it
/// carries none: marking it would send it round the tunnel before Tor ever saw
/// it.
pub open spec fn own_mark(path: PathView, marks: Seq<(Seq<char>, u32)>) -> Option<u32> {
    match path {
        PathView::Vpn { .. } => mark_for(marks, path.label()),
        _ => None,
    }
}

/// A sender is decided about, but for Tor itself: a path through Tor is for those
/// whom Tor serves.
pub open spec fn leave_others_line(sender: SelectorView, tor: u32) -> Seq<char> {
    "    "@ + sender.matching() + " meta skuid != "@ + dec(tor as nat) + " return"@
}

/// What a rule does in the chain that marks traffic: its sender is marked where
/// the rule sends it into a tunnel, and nothing that follows is asked about it.
pub open spec fn marking(
    rule: RuleView,
    host: HostView,
    marks: Seq<(Seq<char>, u32)>,
) -> Seq<char> {
    match (own_mark(rule.path, marks), host.tor_uid) {
        (Some(mark), _) => mark_line(rule.selector, mark),
        (None, Some(uid)) if rule.path.tor() => leave_others_line(rule.selector, uid),
        _ => leave_line(rule.selector),
    }
}

/// What the rules do there, in their order.
pub open spec fn rule_marks(
    rules: Seq<RuleView>,
    host: HostView,
    marks: Seq<(Seq<char>, u32)>,
) -> Seq<Seq<char>> {
    Seq::new(rules.len(), |i: int| marking(rules[i], host, marks))
}

/// Where a path leads through Tor and Tor through a tunnel, it is Tor's own
/// socket that takes the tunnel.
pub open spec fn tor_marking(
    path: PathView,
    host: HostView,
    marks: Seq<(Seq<char>, u32)>,
) -> Seq<Seq<char>> {
    match (path, host.tor_uid, mark_for(marks, path.label())) {
        (PathView::TorViaVpn { .. }, Some(uid), Some(mark)) => seq![
            "    # Tor itself takes the tunnel; apps take Tor."@,
            "    meta skuid "@ + dec(uid as nat) + " meta mark set "@ + mark_text(mark),
            "    meta skuid "@ + dec(uid as nat) + " ct mark set meta mark return"@,
        ],
        _ => seq![],
    }
}

/// The same for several paths. Where they name different tunnels, the first
/// decides.
pub open spec fn tor_markings(
    paths: Seq<PathView>,
    host: HostView,
    marks: Seq<(Seq<char>, u32)>,
) -> Seq<Seq<char>>
    decreases paths.len(),
{
    if paths.len() == 0 {
        seq![]
    } else {
        tor_markings(paths.drop_last(), host, marks) + tor_marking(paths.last(), host, marks)
    }
}

/// What a policy marks of Tor's own traffic.
pub open spec fn tor_mark(
    policy: PolicyView,
    host: HostView,
    marks: Seq<(Seq<char>, u32)>,
) -> Seq<Seq<char>> {
    tor_markings(policy.paths(), host, marks)
}

/// What marks everything else.
pub open spec fn default_mark(policy: PolicyView, marks: Seq<(Seq<char>, u32)>) -> Seq<Seq<char>> {
    match own_mark(policy.default_path, marks) {
        Some(mark) => seq![
            "    meta mark set "@ + mark_text(mark) + "   # default for everything else"@,
        ],
        None => seq![],
    }
}

/// The decision is saved onto the connection. Only the first packet of a
/// connection is new; every packet after it would be left alone.
pub open spec fn saved_mark(marks: Seq<(Seq<char>, u32)>) -> Seq<Seq<char>> {
    if marks.len() > 0 {
        seq![
            "    # Remember it, so the rest of the connection follows."@,
            "    meta mark != 0x0 ct mark set meta mark"@,
        ]
    } else {
        seq![]
    }
}

/// The chain that marks traffic for the tunnels. The rules come first and in
/// their order, then Tor's own traffic, and what is for everything else comes
/// last.
pub open spec fn mark_chain(
    policy: PolicyView,
    host: HostView,
    marks: Seq<(Seq<char>, u32)>,
) -> Seq<Seq<char>> {
    seq![
        "  chain "@ + MARK_CHAIN@ + " {"@,
        "    type route hook output priority mangle; policy accept;"@,
    ] + exclusions(host) + rule_marks(policy.rules, host, marks) + tor_mark(policy, host, marks)
        + default_mark(policy, marks) + saved_mark(marks) + seq!["  }"@]
}

pub open spec fn masquerade_line(lane: LaneView) -> Seq<char> {
    "    oifname \""@ + lane.interface() + "\" masquerade"@
}

pub open spec fn masquerade_lines(lanes: Seq<LaneView>) -> Seq<Seq<char>> {
    Seq::new(lanes.len(), |i: int| masquerade_line(lanes[i]))
}

/// The chain that makes a packet's source address that of the interface it
/// leaves by. Source addresses are chosen before the mark is set.
pub open spec fn masq_chain(lanes: Seq<LaneView>) -> Seq<Seq<char>> {
    if lanes.len() > 0 {
        seq![
            "  chain "@ + MASQ_CHAIN@ + " {"@,
            "    type nat hook postrouting priority srcnat; policy accept;"@,
        ] + masquerade_lines(lanes) + seq!["  }"@]
    } else {
        seq![]
    }
}

/// The ruleset, line by line.
///
/// Loading a ruleset merges it into an existing table, with the old rules in
/// front. The bare `table` line creates the table if it is absent, which makes
/// the delete always valid, so the body always fills an empty table.
pub open spec fn ruleset(policy: PolicyView, host: HostView) -> Seq<Seq<char>> {
    seq![
        "# generated by throughline"@,
        "table inet "@ + TABLE@,
        "delete table inet "@ + TABLE@,
        "table inet "@ + TABLE@ + " {"@,
    ] + (if policy.uses_tor() {
        tor_chain(policy, host)
    } else {
        seq![]
    }) + mark_chain(policy, host, policy.marks()) + masq_chain(policy.lanes()) + seq!["}"@]
}

// ---------------------------------------------------------------------------
// The rest of the plan
// ---------------------------------------------------------------------------

impl LaneView {
    pub open spec fn rule_text(self, verb: Seq<char>) -> Seq<char> {
        "ip rule "@ + verb + " fwmark "@ + mark_text(self.mark) + " lookup "@ + dec(self.table())
            + " priority "@ + dec(self.priority())
    }

    /// The commands that lead the lane's mark into its tunnel.
    pub open spec fn setup(self) -> Seq<Seq<char>> {
        seq![
            self.rule_text("add"@),
            "ip route add default dev "@ + self.interface() + " table "@ + dec(self.table()),
        ]
    }

    /// The commands that take them back.
    pub open spec fn teardown(self) -> Seq<Seq<char>> {
        seq!["ip route flush table "@ + dec(self.table()), self.rule_text("del"@)]
    }
}

pub open spec fn setups(lanes: Seq<LaneView>) -> Seq<Seq<char>>
    decreases lanes.len(),
{
    if lanes.len() == 0 {
        seq![]
    } else {
        setups(lanes.drop_last()) + lanes.last().setup()
    }
}

pub open spec fn teardowns(lanes: Seq<LaneView>) -> Seq<Seq<char>>
    decreases lanes.len(),
{
    if lanes.len() == 0 {
        seq![]
    } else {
        teardowns(lanes.drop_last()) + lanes.last().teardown()
    }
}

/// The concrete thing to apply, as text.
#[derive(Debug)]
pub struct Plan {
    /// A complete nftables table, safe to `nft -f`.
    pub nft: String,
    /// `ip rule` / `ip route` invocations, in order.
    pub ip: Vec<String>,
    /// Lines Tor needs in its configuration for this plan to work.
    pub torrc: Vec<String>,
    /// Mark value per path, in the order of the labels, for display.
    pub marks: Vec<(String, u32)>,
    /// Exactly how to undo this, in order.
    ///
    /// `nft delete table` is a third of a revert. What it leaves behind is the
    /// half that can misroute traffic on its own: `ip rule` entries above
    /// `main` that match on a mark, and routing tables with a default route in
    /// them.
    pub revert: Vec<String>,
    /// Things that are true and worth knowing, but not refusals.
    pub notes: Vec<String>,
}

/// What a [`Plan`] says.
pub struct PlanView {
    pub nft: Seq<char>,
    pub ip: Seq<Seq<char>>,
    pub torrc: Seq<Seq<char>>,
    pub marks: Seq<(Seq<char>, u32)>,
    pub revert: Seq<Seq<char>>,
    pub notes: Seq<Seq<char>>,
}

pub open spec fn mark_views(v: Seq<(String, u32)>) -> Seq<(Seq<char>, u32)> {
    Seq::new(v.len(), |i: int| (v[i].0@, v[i].1))
}

impl View for Plan {
    type V = PlanView;

    open spec fn view(&self) -> PlanView {
        PlanView {
            nft: self.nft@,
            ip: texts(self.ip@),
            torrc: texts(self.torrc@),
            marks: mark_views(self.marks@),
            revert: texts(self.revert@),
            notes: texts(self.notes@),
        }
    }
}

impl Default for Plan {
    /// A plan that does nothing.
    fn default() -> (r: Self)
        ensures
            r@ == (PlanView {
                nft: ""@,
                ip: seq![],
                torrc: seq![],
                marks: seq![],
                revert: seq![],
                notes: seq![],
            }),
    {
        let p: Plan = Plan {
            nft: String::from_str(""),
            ip: Vec::new(),
            torrc: Vec::new(),
            marks: Vec::new(),
            revert: Vec::new(),
            notes: Vec::new(),
        };
        assert(p@.ip =~= Seq::<Seq<char>>::empty());
        assert(p@.torrc =~= Seq::<Seq<char>>::empty());
        assert(p@.marks =~= Seq::<(Seq<char>, u32)>::empty());
        assert(p@.revert =~= Seq::<Seq<char>>::empty());
        assert(p@.notes =~= Seq::<Seq<char>>::empty());
        p
    }
}

fn copy_marks(v: &Vec<(String, u32)>) -> (r: Vec<(String, u32)>)
    ensures
        mark_views(r@) == mark_views(v@),
{
    let mut out: Vec<(String, u32)> = Vec::new();
    let mut i: usize = 0;
    while i < v.len()
        invariant
            i <= v@.len(),
            mark_views(out@) =~= mark_views(v@).take(i as int),
        decreases v@.len() - i,
    {
        let ghost before = out@;
        out.push((copy(v[i].0.as_str()), v[i].1));
        assert(mark_views(out@) =~= mark_views(before).push((v@[i as int].0@, v@[i as int].1)));
        i += 1;
    }
    out
}

impl Clone for Plan {
    fn clone(&self) -> (r: Self)
        ensures
            r@ == self@,
    {
        Plan {
            nft: copy(self.nft.as_str()),
            ip: copies(&self.ip),
            torrc: copies(&self.torrc),
            marks: copy_marks(&self.marks),
            revert: copies(&self.revert),
            notes: copies(&self.notes),
        }
    }
}

/// What Tor's configuration has to hold.
pub open spec fn torrc_lines(policy: PolicyView, host: HostView) -> Seq<Seq<char>> {
    if policy.uses_tor() {
        seq![
            "TransPort 127.0.0.1:"@ + dec(host.trans() as nat),
            "DNSPort 127.0.0.1:"@ + dec(host.dns() as nat),
            "AutomapHostsOnResolve 1"@,
            "AutomapHostsSuffixes .onion,.exit"@,
        ]
    } else {
        seq![]
    }
}

/// What is worth knowing about a policy.
pub open spec fn policy_notes(policy: PolicyView) -> Seq<Seq<char>> {
    (if policy.uses_tor() {
        seq![
            "DNS is redirected to Tor's DNSPort as well as TCP. Routing TCP alone leaves every hostname the application looks up in plaintext, which defeats the point while looking like it worked."@,
        ]
    } else {
        seq![]
    }) + (match policy.default_path {
        PathView::TorViaVpn { interface } => seq![
            "Tor's own traffic is routed through "@ + interface
                + ", so the Tor guard sees the tunnel's address. Everything else about Tor is unchanged."@,
        ],
        _ => seq![],
    })
}

/// The plan for a policy on a host.
pub open spec fn plan_for(policy: PolicyView, host: HostView) -> PlanView {
    PlanView {
        nft: unlines(ruleset(policy, host)),
        ip: setups(policy.lanes()),
        torrc: torrc_lines(policy, host),
        marks: policy.marks(),
        revert: seq!["nft delete table inet "@ + TABLE@] + teardowns(policy.lanes()),
        notes: policy_notes(policy),
    }
}

// ---------------------------------------------------------------------------
// Compiling
// ---------------------------------------------------------------------------

/// Put lines behind others.
fn extend(out: &mut Vec<String>, more: Vec<String>)
    ensures
        texts(final(out)@) == texts(old(out)@) + texts(more@),
{
    let ghost before = out@;
    let mut more: Vec<String> = more;
    let ghost tail = more@;
    out.append(&mut more);
    assert(texts(before + tail) =~= texts(before) + texts(tail));
}

fn same_path(a: &Path, b: &Path) -> (r: bool)
    ensures
        r == (a@ == b@),
{
    match (a, b) {
        (Path::Direct, Path::Direct) => true,
        (Path::Tor, Path::Tor) => true,
        (Path::Vpn { interface: x }, Path::Vpn { interface: y }) => same(x.as_str(), y.as_str()),
        (Path::TorViaVpn { interface: x }, Path::TorViaVpn { interface: y }) => same(
            x.as_str(),
            y.as_str(),
        ),
        _ => false,
    }
}

fn has_path(paths: &Vec<Path>, p: &Path) -> (r: bool)
    ensures
        r == views(paths@).contains(p@),
{
    let mut i: usize = 0;
    while i < paths.len()
        invariant
            i <= paths@.len(),
            forall|k: int| 0 <= k < i ==> (#[trigger] paths@[k])@ != p@,
        decreases paths@.len() - i,
    {
        if same_path(&paths[i], p) {
            assert(views(paths@)[i as int] == p@);
            return true;
        }
        i += 1;
    }
    proof {
        if views(paths@).contains(p@) {
            let k = choose|k: int| 0 <= k < views(paths@).len() && views(paths@)[k] == p@;
            assert(paths@[k]@ == p@);
        }
    }
    false
}

fn add_path(paths: &mut Vec<Path>, p: &Path)
    ensures
        views(final(paths)@) == (if views(old(paths)@).contains(p@) {
            views(old(paths)@)
        } else {
            views(old(paths)@).push(p@)
        }),
{
    if !has_path(paths, p) {
        let ghost before = paths@;
        paths.push(p.clone());
        assert(views(paths@) =~= views(before).push(p@));
    }
}

/// One tunnel of a policy and the mark that leads there.
struct Lane {
    path: Path,
    mark: u32,
}

impl View for Lane {
    type V = LaneView;

    closed spec fn view(&self) -> LaneView {
        LaneView { path: self.path@, mark: self.mark }
    }
}

impl Sortable for Lane {
    fn no_later(&self, other: &Self) -> (r: bool) {
        crate::order::at_most(self.path.label().as_str(), other.path.label().as_str())
    }
}

proof fn lemma_tunnelled_grows(s: Seq<PathView>, i: int)
    requires
        0 <= i <= s.len(),
    ensures
        tunnelled(s.take(i)).len() <= tunnelled(s).len(),
    decreases s.len(),
{
    if i < s.len() {
        lemma_tunnelled_grows(s.drop_last(), i);
        assert(s.drop_last().take(i) =~= s.take(i));
    } else {
        assert(s.take(i) =~= s);
    }
}

/// The mark that a label stands for.
fn find_mark(marks: &Vec<(String, u32)>, label: &str) -> (r: Option<u32>)
    ensures
        r == mark_for(mark_views(marks@), label@),
{
    let ghost all = mark_views(marks@);
    let mut i: usize = 0;
    assert(all.skip(0) =~= all);
    while i < marks.len()
        invariant
            i <= marks@.len(),
            all == mark_views(marks@),
            mark_for(all, label@) == mark_for(all.skip(i as int), label@),
        decreases marks@.len() - i,
    {
        assert(all.skip(i as int)[0] == (marks@[i as int].0@, marks@[i as int].1));
        if same(marks[i].0.as_str(), label) {
            return Some(marks[i].1);
        }
        assert(all.skip(i as int).skip(1) =~= all.skip(i + 1));
        i += 1;
    }
    None
}

/// The mark that an application on a path carries itself.
fn find_own_mark(path: &Path, marks: &Vec<(String, u32)>) -> (r: Option<u32>)
    ensures
        r == own_mark(path@, mark_views(marks@)),
{
    match path {
        Path::Vpn { .. } => find_mark(marks, path.label().as_str()),
        _ => None,
    }
}

/// The lines that send Tor's own traffic into a tunnel.
fn tor_mark_lines(paths: &Vec<Path>, host: &Host, marks: &Vec<(String, u32)>) -> (r: Vec<String>)
    ensures
        texts(r@) == tor_markings(views(paths@), host@, mark_views(marks@)),
{
    let ghost all = views(paths@);
    let ghost m = mark_views(marks@);
    let mut out: Vec<String> = Vec::new();
    let mut i: usize = 0;
    assert(all.take(0) =~= Seq::<PathView>::empty());
    assert(texts(out@) =~= tor_markings(all.take(0), host@, m));
    while i < paths.len()
        invariant
            i <= paths@.len(),
            all == views(paths@),
            m == mark_views(marks@),
            texts(out@) == tor_markings(all.take(i as int), host@, m),
        decreases paths@.len() - i,
    {
        assert(all.take(i + 1).drop_last() =~= all.take(i as int));
        assert(all.take(i + 1).last() == paths@[i as int]@);
        let ghost before = out@;
        match (&paths[i], host.tor_uid, find_mark(marks, paths[i].label().as_str())) {
            (Path::TorViaVpn { .. }, Some(uid), Some(mark)) => {
                out.push(String::from_str("    # Tor itself takes the tunnel; apps take Tor."));
                let mut s: String = String::from_str("    meta skuid ");
                push_dec(&mut s, uid as u64);
                s.append(" meta mark set ");
                push_mark(&mut s, mark);
                out.push(s);
                let mut t: String = String::from_str("    meta skuid ");
                push_dec(&mut t, uid as u64);
                t.append(" ct mark set meta mark return");
                out.push(t);
                assert(texts(out@) =~= texts(before) + tor_marking(paths@[i as int]@, host@, m));
            },
            _ => {
                assert(texts(out@) =~= texts(before) + tor_marking(paths@[i as int]@, host@, m));
            },
        }
        i += 1;
    }
    assert(all.take(i as int) =~= all);
    out
}

/// Write a mark behind a text.
fn push_mark(s: &mut String, mark: u32)
    ensures
        final(s)@ == old(s)@ + mark_text(mark),
{
    let ghost before = s@;
    s.append("0x");
    push_hex(s, mark as u64);
    assert(s@ =~= before + mark_text(mark));
}

/// The nftables match for "destined for this address", where `shown` is the
/// address as it is shown when it is none.
pub fn daddr_shown(addr: &str, shown: &str) -> (r: String)
    ensures
        r@ == destined(addr@, shown@),
{
    match IpAddr::parse(addr) {
        Some(a) => {
            let flat: IpAddr = a.flattened();
            match flat {
                IpAddr::V4(..) => {
                    let mut s: String = String::from_str("ip daddr ");
                    s.append(flat.to_text().as_str());
                    s
                },
                IpAddr::V6(..) => {
                    let mut s: String = String::from_str("ip6 daddr ");
                    s.append(a.to_text().as_str());
                    s
                },
            }
        },
        None => {
            let mut s: String = String::from_str("# unparseable address ");
            s.append(shown);
            s.append(", not excluded");
            s
        },
    }
}

/// The nftables match for "destined for this address".
pub(crate) fn daddr(addr: &str) -> (r: String)
    ensures
        r@ == daddr_text(addr@),
{
    daddr_shown(addr, debugged(addr).as_str())
}

/// The lines that leave addresses alone, each with what it is for.
fn address_lines(addrs: &Vec<String>, why: &str) -> (r: Vec<String>)
    ensures
        r@.len() == addrs@.len(),
        forall|i: int|
            0 <= i < r@.len() ==> (#[trigger] r@[i])@ == "    "@ + daddr_text(addrs@[i]@) + why@,
{
    let mut out: Vec<String> = Vec::new();
    let mut i: usize = 0;
    while i < addrs.len()
        invariant
            i <= addrs@.len(),
            out@.len() == i,
            forall|k: int|
                0 <= k < i ==> (#[trigger] out@[k])@ == "    "@ + daddr_text(addrs@[k]@) + why@,
        decreases addrs@.len() - i,
    {
        let mut s: String = String::from_str("    ");
        s.append(daddr(addrs[i].as_str()).as_str());
        s.append(why);
        out.push(s);
        i += 1;
    }
    out
}

impl Policy {
    fn paths(&self) -> (r: Vec<Path>)
        ensures
            views(r@) == self@.paths(),
    {
        let mut paths: Vec<Path> = Vec::new();
        let ghost all = self@.routes();
        let mut i: usize = 0;
        assert(all.take(0) =~= Seq::<PathView>::empty());
        assert(views(paths@) =~= Seq::<PathView>::empty());
        while i < self.rules.len()
            invariant
                i <= self.rules@.len(),
                all == self@.routes(),
                views(paths@) == distinct(all.take(i as int)),
            decreases self.rules@.len() - i,
        {
            assert(all.take(i + 1).drop_last() =~= all.take(i as int));
            assert(all.take(i + 1).last() == self.rules@[i as int].path@) by {
                assert(self@.rules[i as int] == self.rules@[i as int]@);
            }
            add_path(&mut paths, &self.rules[i].path);
            i += 1;
        }
        assert(all.drop_last() =~= all.take(i as int));
        add_path(&mut paths, &self.default_path);
        paths
    }

    fn any_tor(&self) -> (r: bool)
        ensures
            r == self@.uses_tor(),
    {
        let ghost all = self@.routes();
        let mut i: usize = 0;
        while i < self.rules.len()
            invariant
                i <= self.rules@.len(),
                all == self@.routes(),
                forall|k: int| 0 <= k < i ==> !(#[trigger] all[k]).tor(),
            decreases self.rules@.len() - i,
        {
            assert(all[i as int] == self@.rules[i as int].path);
            if self.rules[i].path.uses_tor() {
                return true;
            }
            i += 1;
        }
        assert(all[i as int] == self.default_path@);
        self.default_path.uses_tor()
    }

    fn lanes(&self) -> (r: Vec<Lane>)
        requires
            self@.tunnels().len() <= most_tunnels(),
        ensures
            views(r@) == self@.lanes(),
    {
        let paths: Vec<Path> = self.paths();
        let ghost all = self@.paths();
        let mut out: Vec<Lane> = Vec::new();
        let mut i: usize = 0;
        assert(all.take(0) =~= Seq::<PathView>::empty());
        assert(views(out@) =~= numbered(tunnelled(all.take(0))));
        while i < paths.len()
            invariant
                i <= paths@.len(),
                all == views(paths@),
                all == self@.paths(),
                tunnelled(all).len() <= most_tunnels(),
                views(out@) == numbered(tunnelled(all.take(i as int))),
            decreases paths@.len() - i,
        {
            let ghost t = tunnelled(all.take(i as int));
            assert(all.take(i + 1).drop_last() =~= all.take(i as int));
            assert(all.take(i + 1).last() == paths@[i as int]@);
            assert(views(out@).len() == out@.len());
            if paths[i].interface().is_some() {
                proof {
                    lemma_tunnelled_grows(all, i + 1);
                }
                let lane: Lane = Lane {
                    path: paths[i].clone(),
                    mark: MARK_BASE + out.len() as u32,
                };
                let ghost before = out@;
                out.push(lane);
                assert(views(out@) =~= views(before).push(lane@));
                assert(numbered(t.push(paths@[i as int]@)) =~= numbered(t).push(lane@));
            }
            i += 1;
        }
        assert(all.take(i as int) =~= all);
        sort(out)
    }

    /// Rules that must come before anything else, in every chain.
    fn exclusions(host: &Host) -> (r: Vec<String>)
        ensures
            texts(r@) == exclusions(host@),
    {
        let mut out: Vec<String> = Vec::new();
        out.push(String::from_str("    # Exclusions first. Order is the safety."));
        out.push(
            String::from_str(
                "    # A connection this policy already decided about keeps that decision.",
            ),
        );
        out.push(String::from_str("    ct mark != 0x0 meta mark set ct mark return"));
        out.push(String::from_str("    oif lo return"));
        out.push(
            String::from_str(
                "    ct state established,related return   # a connection that predates this policy",
            ),
        );
        let ghost head = texts(out@);
        let peers: Vec<String> = address_lines(
            &host.admin_peers,
            " return   # the session administering this host",
        );
        assert(texts(peers@) =~= peer_lines(host@.admin_peers));
        extend(&mut out, peers);
        let eps: Vec<String> = address_lines(
            &host.tunnel_endpoints,
            " return   # a tunnel's own endpoint",
        );
        assert(texts(eps@) =~= endpoint_lines(host@.tunnel_endpoints));
        extend(&mut out, eps);
        assert(texts(out@) =~= exclusions(host@));
        out
    }

    fn tor_lines(&self, host: &Host) -> (r: Vec<String>)
        ensures
            texts(r@) == tor_chain(self@, host@),
    {
        let trans: u16 = match host.tor_trans_port {
            Some(p) => p,
            None => 9040,
        };
        let dns: u16 = match host.tor_dns_port {
            Some(p) => p,
            None => 9053,
        };
        let mut out: Vec<String> = Vec::new();
        let mut head: String = String::from_str("  chain ");
        head.append(NAT_CHAIN);
        head.append(" {");
        out.push(head);
        out.push(String::from_str("    type nat hook output priority dstnat; policy accept;"));
        assert(texts(out@) =~= seq![
            "  chain "@ + NAT_CHAIN@ + " {"@,
            "    type nat hook output priority dstnat; policy accept;"@,
        ]);
        extend(&mut out, Self::exclusions(host));
        let ghost start = texts(out@);
        if let Some(uid) = host.tor_uid {
            let ghost before = out@;
            out.push(String::from_str("    # Tor's own packets, or they never reach a relay."));
            let mut s: String = String::from_str("    meta skuid ");
            push_dec(&mut s, uid as u64);
            s.append(" return");
            out.push(s);
            assert(texts(out@) =~= texts(before) + tor_itself(host@));
        } else {
            assert(texts(out@) =~= texts(out@) + tor_itself(host@));
        }
        let ghost own = texts(out@);
        let ghost all = self@.rules;
        let mut i: usize = 0;
        assert(all.take(0) =~= Seq::<RuleView>::empty());
        assert(own =~= own + rule_redirects(all.take(0), host@));
        while i < self.rules.len()
            invariant
                i <= self.rules@.len(),
                all == views(self.rules@),
                trans == host@.trans(),
                dns == host@.dns(),
                texts(out@) == own + rule_redirects(all.take(i as int), host@),
            decreases self.rules@.len() - i,
        {
            assert(all.take(i + 1).drop_last() =~= all.take(i as int));
            assert(all.take(i + 1).last() == self.rules@[i as int]@);
            let ghost before = out@;
            let sender: String = self.rules[i].selector.nft_match();
            let mut leave: String = String::from_str("    ");
            leave.append(sender.as_str());
            leave.append(" return");
            if self.rules[i].path.uses_tor() {
                let mut tcp: String = String::from_str("    ");
                tcp.append(sender.as_str());
                tcp.append(" meta l4proto tcp redirect to :");
                push_dec(&mut tcp, trans as u64);
                let mut udp: String = String::from_str("    ");
                udp.append(sender.as_str());
                udp.append(" udp dport 53 redirect to :");
                push_dec(&mut udp, dns as u64);
                out.push(tcp);
                out.push(udp);
                out.push(leave);
            } else {
                out.push(leave);
            }
            assert(texts(out@) =~= texts(before) + redirect(all[i as int], host@));
            assert(texts(out@) =~= own + rule_redirects(all.take(i + 1), host@));
            i += 1;
        }
        assert(all.take(i as int) =~= all);
        if self.default_path.uses_tor() {
            let ghost before = out@;
            let mut tcp: String = String::from_str("    meta l4proto tcp redirect to :");
            push_dec(&mut tcp, trans as u64);
            let mut udp: String = String::from_str("    udp dport 53 redirect to :");
            push_dec(&mut udp, dns as u64);
            out.push(tcp);
            out.push(udp);
            assert(texts(out@) =~= texts(before) + default_redirects(self@, host@));
        } else {
            assert(texts(out@) =~= texts(out@) + default_redirects(self@, host@));
        }
        let ghost before = out@;
        out.push(String::from_str("  }"));
        assert(texts(out@) =~= texts(before) + seq!["  }"@]);
        out
    }

    fn mark_lines(&self, host: &Host, marks: &Vec<(String, u32)>) -> (r: Vec<String>)
        ensures
            texts(r@) == mark_chain(self@, host@, mark_views(marks@)),
    {
        let ghost m = mark_views(marks@);
        let mut out: Vec<String> = Vec::new();
        let mut head: String = String::from_str("  chain ");
        head.append(MARK_CHAIN);
        head.append(" {");
        out.push(head);
        out.push(String::from_str("    type route hook output priority mangle; policy accept;"));
        assert(texts(out@) =~= seq![
            "  chain "@ + MARK_CHAIN@ + " {"@,
            "    type route hook output priority mangle; policy accept;"@,
        ]);
        extend(&mut out, Self::exclusions(host));
        let ghost start = texts(out@);
        let ghost all = self@.rules;
        let mut i: usize = 0;
        assert(start =~= start + rule_marks(all, host@, m).take(0));
        while i < self.rules.len()
            invariant
                i <= self.rules@.len(),
                all == views(self.rules@),
                m == mark_views(marks@),
                texts(out@) == start + rule_marks(all, host@, m).take(i as int),
            decreases self.rules@.len() - i,
        {
            assert(all[i as int] == self.rules@[i as int]@);
            let ghost before = out@;
            let mut s: String = String::from_str("    ");
            s.append(self.rules[i].selector.nft_match().as_str());
            match (find_own_mark(&self.rules[i].path, marks), host.tor_uid) {
                (Some(mark), _) => {
                    s.append(" meta mark set ");
                    push_mark(&mut s, mark);
                    s.append(" ct mark set meta mark return");
                },
                (None, Some(uid)) => {
                    if self.rules[i].path.uses_tor() {
                        s.append(" meta skuid != ");
                        push_dec(&mut s, uid as u64);
                    }
                    s.append(" return");
                },
                (None, None) => {
                    s.append(" return");
                },
            }
            out.push(s);
            assert(s@ == marking(all[i as int], host@, m));
            assert(texts(out@) =~= texts(before).push(s@));
            assert(texts(out@) =~= start + rule_marks(all, host@, m).take(i + 1));
            i += 1;
        }
        assert(rule_marks(all, host@, m).take(i as int) =~= rule_marks(all, host@, m));
        extend(&mut out, tor_mark_lines(&self.paths(), host, marks));
        let ghost before = out@;
        if let Some(mark) = find_own_mark(&self.default_path, marks) {
            let mut s: String = String::from_str("    meta mark set ");
            push_mark(&mut s, mark);
            s.append("   # default for everything else");
            out.push(s);
        }
        assert(texts(out@) =~= texts(before) + default_mark(self@, m));
        let ghost before = out@;
        if marks.len() > 0 {
            out.push(
                String::from_str("    # Remember it, so the rest of the connection follows."),
            );
            out.push(String::from_str("    meta mark != 0x0 ct mark set meta mark"));
        }
        assert(texts(out@) =~= texts(before) + saved_mark(m));
        let ghost before = out@;
        out.push(String::from_str("  }"));
        assert(texts(out@) =~= texts(before) + seq!["  }"@]);
        out
    }

    fn masq_lines(lanes: &Vec<Lane>) -> (r: Vec<String>)
        ensures
            texts(r@) == masq_chain(views(lanes@)),
    {
        let mut out: Vec<String> = Vec::new();
        let ghost all = views(lanes@);
        assert(all.len() == lanes@.len());
        if lanes.len() == 0 {
            assert(texts(out@) =~= masq_chain(all));
            return out;
        }
        let mut head: String = String::from_str("  chain ");
        head.append(MASQ_CHAIN);
        head.append(" {");
        out.push(head);
        out.push(
            String::from_str("    type nat hook postrouting priority srcnat; policy accept;"),
        );
        let ghost start = seq![
            "  chain "@ + MASQ_CHAIN@ + " {"@,
            "    type nat hook postrouting priority srcnat; policy accept;"@,
        ];
        assert(texts(out@) =~= start + masquerade_lines(all).take(0));
        let mut i: usize = 0;
        while i < lanes.len()
            invariant
                i <= lanes@.len(),
                all == views(lanes@),
                texts(out@) == start + masquerade_lines(all).take(i as int),
            decreases lanes@.len() - i,
        {
            let ghost before = out@;
            let mut s: String = String::from_str("    oifname \"");
            match lanes[i].path.interface() {
                Some(iface) => s.append(iface),
                None => s.append(""),
            }
            s.append("\" masquerade");
            assert(s@ == masquerade_line(all[i as int])) by {
                reveal_strlit("");
                assert(all[i as int] == lanes@[i as int]@);
                assert(""@ =~= Seq::<char>::empty());
            }
            out.push(s);
            assert(texts(out@) =~= texts(before).push(s@));
            assert(masquerade_lines(all).take(i + 1) =~= masquerade_lines(all).take(i as int).push(
                s@,
            ));
            i += 1;
        }
        assert(masquerade_lines(all).take(i as int) =~= masquerade_lines(all));
        let ghost before = out@;
        out.push(String::from_str("  }"));
        assert(texts(out@) =~= texts(before) + seq!["  }"@]);
        out
    }

    fn nft_ruleset(
        &self,
        host: &Host,
        marks: &Vec<(String, u32)>,
        uses_tor: bool,
        lanes: &Vec<Lane>,
    ) -> (r: String)
        requires
            uses_tor == self@.uses_tor(),
            mark_views(marks@) == self@.marks(),
            views(lanes@) == self@.lanes(),
        ensures
            r@ == unlines(ruleset(self@, host@)),
    {
        let mut out: Vec<String> = Vec::new();
        out.push(String::from_str("# generated by throughline"));
        let mut create: String = String::from_str("table inet ");
        create.append(TABLE);
        out.push(create);
        let mut delete: String = String::from_str("delete table inet ");
        delete.append(TABLE);
        out.push(delete);
        let mut body: String = String::from_str("table inet ");
        body.append(TABLE);
        body.append(" {");
        out.push(body);
        assert(texts(out@) =~= seq![
            "# generated by throughline"@,
            "table inet "@ + TABLE@,
            "delete table inet "@ + TABLE@,
            "table inet "@ + TABLE@ + " {"@,
        ]);
        if uses_tor {
            extend(&mut out, self.tor_lines(host));
        } else {
            assert(texts(out@) =~= texts(out@) + Seq::<Seq<char>>::empty());
        }
        extend(&mut out, self.mark_lines(host, marks));
        extend(&mut out, Self::masq_lines(lanes));
        let ghost before = out@;
        out.push(String::from_str("}"));
        assert(texts(out@) =~= texts(before) + seq!["}"@]);
        with_line_feeds(&out)
    }

    /// Compile to a plan. Does not check it: see [`Plan::preflight`].
    pub fn compile(&self, host: &Host) -> (r: Plan)
        requires
            self@.tunnels().len() <= most_tunnels(),
        ensures
            r@ == plan_for(self@, host@),
    {
        let lanes: Vec<Lane> = self.lanes();
        let marks: Vec<(String, u32)> = marks_of(&lanes);
        let uses_tor: bool = self.any_tor();
        let nft: String = self.nft_ruleset(host, &marks, uses_tor, &lanes);
        let (ip, revert): (Vec<String>, Vec<String>) = routing(&lanes, Ghost(self@));
        let mut torrc: Vec<String> = Vec::new();
        let mut notes: Vec<String> = Vec::new();
        if uses_tor {
            let trans: u16 = match host.tor_trans_port {
                Some(p) => p,
                None => 9040,
            };
            let dns: u16 = match host.tor_dns_port {
                Some(p) => p,
                None => 9053,
            };
            let mut t: String = String::from_str("TransPort 127.0.0.1:");
            push_dec(&mut t, trans as u64);
            torrc.push(t);
            let mut d: String = String::from_str("DNSPort 127.0.0.1:");
            push_dec(&mut d, dns as u64);
            torrc.push(d);
            torrc.push(String::from_str("AutomapHostsOnResolve 1"));
            torrc.push(String::from_str("AutomapHostsSuffixes .onion,.exit"));
            notes.push(
                String::from_str(
                    "DNS is redirected to Tor's DNSPort as well as TCP. Routing TCP alone leaves every hostname the application looks up in plaintext, which defeats the point while looking like it worked.",
                ),
            );
        }
        assert(texts(torrc@) =~= torrc_lines(self@, host@));
        if let Path::TorViaVpn { interface } = &self.default_path {
            let mut n: String = String::from_str("Tor's own traffic is routed through ");
            n.append(interface.as_str());
            n.append(
                ", so the Tor guard sees the tunnel's address. Everything else about Tor is unchanged.",
            );
            notes.push(n);
        }
        assert(texts(notes@) =~= policy_notes(self@));
        Plan { nft, ip, torrc, marks, revert, notes }
    }
}

fn marks_of(lanes: &Vec<Lane>) -> (r: Vec<(String, u32)>)
    ensures
        mark_views(r@) == lane_marks(views(lanes@)),
{
    let mut out: Vec<(String, u32)> = Vec::new();
    let ghost all = lane_marks(views(lanes@));
    let mut i: usize = 0;
    while i < lanes.len()
        invariant
            i <= lanes@.len(),
            all == lane_marks(views(lanes@)),
            mark_views(out@) =~= all.take(i as int),
        decreases lanes@.len() - i,
    {
        let ghost before = out@;
        let entry: (String, u32) = (lanes[i].path.label(), lanes[i].mark);
        out.push(entry);
        assert(mark_views(out@) =~= mark_views(before).push((entry.0@, entry.1)));
        assert(views(lanes@)[i as int] == lanes@[i as int]@);
        i += 1;
    }
    assert(mark_views(out@) =~= all);
    out
}

pub(crate) proof fn lemma_lane_numbers(policy: PolicyView)
    requires
        policy.tunnels().len() <= most_tunnels(),
    ensures
        policy.lanes().len() == policy.tunnels().len(),
        forall|i: int|
            0 <= i < policy.lanes().len() ==> numbered(policy.tunnels()).contains(
                #[trigger] policy.lanes()[i],
            ),
        forall|i: int|
            0 <= i < policy.lanes().len() ==> MARK_BASE <= (#[trigger] policy.lanes()[i]).mark
                < MARK_BASE + policy.tunnels().len() && policy.lanes()[i].path.tunnel() is Some,
{
    broadcast use vstd::seq_lib::group_to_multiset_ensures;

    let n = numbered(policy.tunnels());
    let l = policy.lanes();
    crate::order::sorting_keeps_every_value(n);
    lemma_tunnelled(policy.paths());
    assert forall|i: int| 0 <= i < l.len() implies n.contains(#[trigger] l[i]) && MARK_BASE
        <= l[i].mark < MARK_BASE + policy.tunnels().len() && l[i].path.tunnel() is Some by {
        assert(l.contains(l[i]));
        assert(l.to_multiset().count(l[i]) > 0);
        assert(n.contains(l[i]));
        let k = choose|k: int| 0 <= k < n.len() && n[k] == l[i];
        assert(policy.tunnels()[k].tunnel() is Some);
    }
}

proof fn lemma_tunnelled(s: Seq<PathView>)
    ensures
        forall|i: int| 0 <= i < tunnelled(s).len() ==> (#[trigger] tunnelled(s)[i]).tunnel() is Some,
        forall|p: PathView| #[trigger]
            tunnelled(s).contains(p) <==> s.contains(p) && p.tunnel() is Some,
    decreases s.len(),
{
    if s.len() > 0 {
        let t = s.drop_last();
        lemma_tunnelled(t);
        assert(s =~= t.push(s.last()));
        assert forall|p: PathView| #[trigger] tunnelled(s).contains(p) <==> s.contains(p)
            && p.tunnel() is Some by {
            lemma_push_contains(t, s.last(), p);
            lemma_push_contains(tunnelled(t), s.last(), p);
            assert(tunnelled(t).contains(p) <==> t.contains(p) && p.tunnel() is Some);
        }
    }
}

fn rule_command(verb: &str, lane: &Lane, table: u32, priority: u32) -> (r: String)
    requires
        table == lane@.table(),
        priority == lane@.priority(),
    ensures
        r@ == lane@.rule_text(verb@),
{
    let mut s: String = String::from_str("ip rule ");
    s.append(verb);
    s.append(" fwmark ");
    push_mark(&mut s, lane.mark);
    s.append(" lookup ");
    push_dec(&mut s, table as u64);
    s.append(" priority ");
    push_dec(&mut s, priority as u64);
    s
}

/// The commands that lead the marks into their tunnels, and those that take
/// them back. Built side by side, so the undo cannot drift from the do.
fn routing(lanes: &Vec<Lane>, policy: Ghost<PolicyView>) -> (r: (Vec<String>, Vec<String>))
    requires
        policy@.tunnels().len() <= most_tunnels(),
        views(lanes@) == policy@.lanes(),
    ensures
        texts(r.0@) == setups(views(lanes@)),
        texts(r.1@) == seq!["nft delete table inet "@ + TABLE@] + teardowns(views(lanes@)),
{
    let ghost all = views(lanes@);
    let mut ip: Vec<String> = Vec::new();
    let mut revert: Vec<String> = Vec::new();
    let mut delete: String = String::from_str("nft delete table inet ");
    delete.append(TABLE);
    revert.push(delete);
    let ghost first = seq!["nft delete table inet "@ + TABLE@];
    proof {
        lemma_lane_numbers(policy@);
    }
    assert(all.take(0) =~= Seq::<LaneView>::empty());
    assert(texts(ip@) =~= setups(all.take(0)));
    assert(texts(revert@) =~= first + teardowns(all.take(0)));
    let mut i: usize = 0;
    while i < lanes.len()
        invariant
            i <= lanes@.len(),
            all == views(lanes@),
            policy@.tunnels().len() <= most_tunnels(),
            forall|k: int|
                0 <= k < all.len() ==> MARK_BASE <= (#[trigger] all[k]).mark < MARK_BASE
                    + policy@.tunnels().len() && all[k].path.tunnel() is Some,
            texts(ip@) == setups(all.take(i as int)),
            texts(revert@) == first + teardowns(all.take(i as int)),
        decreases lanes@.len() - i,
    {
        let lane: &Lane = &lanes[i];
        assert(all[i as int] == lane@);
        assert(all.take(i + 1).drop_last() =~= all.take(i as int));
        assert(all.take(i + 1).last() == lane@);
        let table: u32 = TABLE_BASE + (lane.mark - MARK_BASE);
        let priority: u32 = PRIORITY_BASE + (lane.mark - MARK_BASE);
        let mut route: String = String::from_str("ip route add default dev ");
        if let Some(iface) = lane.path.interface() {
            route.append(iface);
        }
        route.append(" table ");
        push_dec(&mut route, table as u64);
        let mut flush: String = String::from_str("ip route flush table ");
        push_dec(&mut flush, table as u64);
        let add: String = rule_command("add", lane, table, priority);
        let del: String = rule_command("del", lane, table, priority);
        let ghost was = (ip@, revert@);
        ip.push(add);
        ip.push(route);
        revert.push(flush);
        revert.push(del);
        assert(texts(ip@) =~= texts(was.0) + lane@.setup());
        assert(texts(revert@) =~= texts(was.1) + lane@.teardown());
        assert(texts(revert@) =~= first + teardowns(all.take(i + 1)));
        i += 1;
    }
    assert(all.take(i as int) =~= all);
    (ip, revert)
}

} // verus!
