//! What must be true before a plan may be applied.
//!
//! A plan that would lock its author out, send packets to a closed port or be
//! rejected as a whole is refused here, with a sentence a person can act on.

use vstd::prelude::*;
use vstd::string::*;

use crate::addr::{read_addr, IpAddr};
use crate::order::views;
use crate::policy::{
    daddr, daddr_text, filter_views, Host, HostView, Path, PathView, Plan, PlanView, Policy,
    PolicyView, RuleView, Selector,
};
use crate::text::{
    contains, copy, debug_str, debugged, holds, lists, same, texts, trim, trim_char, trimmed,
    trimmed_char, unlines, with_line_feeds,
};

verus! {

/// Why a plan must not be applied.
#[derive(Debug, PartialEq, Eq)]
pub enum Refusal {
    /// A path needs an interface the host does not have.
    NoSuchInterface { interface: String, path: String },
    /// A path sends traffic to Tor, but Tor has no transparent port.
    TorNotTransparent { missing: &'static str },
    /// Tor's own uid is unknown, so its traffic cannot be excluded from its own
    /// redirect.
    TorUidUnknown,
    /// Applying this would capture the connection administering the host.
    WouldStrandAdmin { peer: String },
    /// A rule matches nothing that could ever exist.
    EmptySelector { selector: String },
    /// Two rules claim the same sender.
    DuplicateSelector { selector: String },
    /// An address to protect is not an address.
    UnparseablePeer { peer: String },
    /// A rule names a cgroup that does not exist on this host.
    NoSuchCgroup { path: String },
    /// Traffic would be routed out an interface whose reverse-path filter will
    /// drop the replies.
    StrictReversePath { interface: String },
}

/// What a [`Refusal`] says.
pub enum RefusalView {
    NoSuchInterface { interface: Seq<char>, path: Seq<char> },
    TorNotTransparent { missing: Seq<char> },
    TorUidUnknown,
    WouldStrandAdmin { peer: Seq<char> },
    EmptySelector { selector: Seq<char> },
    DuplicateSelector { selector: Seq<char> },
    UnparseablePeer { peer: Seq<char> },
    NoSuchCgroup { path: Seq<char> },
    StrictReversePath { interface: Seq<char> },
}

impl View for Refusal {
    type V = RefusalView;

    open spec fn view(&self) -> RefusalView {
        match *self {
            Refusal::NoSuchInterface { interface, path } => RefusalView::NoSuchInterface {
                interface: interface@,
                path: path@,
            },
            Refusal::TorNotTransparent { missing } => RefusalView::TorNotTransparent {
                missing: missing@,
            },
            Refusal::TorUidUnknown => RefusalView::TorUidUnknown,
            Refusal::WouldStrandAdmin { peer } => RefusalView::WouldStrandAdmin { peer: peer@ },
            Refusal::EmptySelector { selector } => RefusalView::EmptySelector {
                selector: selector@,
            },
            Refusal::DuplicateSelector { selector } => RefusalView::DuplicateSelector {
                selector: selector@,
            },
            Refusal::UnparseablePeer { peer } => RefusalView::UnparseablePeer { peer: peer@ },
            Refusal::NoSuchCgroup { path } => RefusalView::NoSuchCgroup { path: path@ },
            Refusal::StrictReversePath { interface } => RefusalView::StrictReversePath {
                interface: interface@,
            },
        }
    }
}

impl Clone for Refusal {
    fn clone(&self) -> (r: Self)
        ensures
            r@ == self@,
    {
        match self {
            Refusal::NoSuchInterface { interface, path } => Refusal::NoSuchInterface {
                interface: copy(interface.as_str()),
                path: copy(path.as_str()),
            },
            Refusal::TorNotTransparent { missing } => Refusal::TorNotTransparent { missing },
            Refusal::TorUidUnknown => Refusal::TorUidUnknown,
            Refusal::WouldStrandAdmin { peer } => Refusal::WouldStrandAdmin {
                peer: copy(peer.as_str()),
            },
            Refusal::EmptySelector { selector } => Refusal::EmptySelector {
                selector: copy(selector.as_str()),
            },
            Refusal::DuplicateSelector { selector } => Refusal::DuplicateSelector {
                selector: copy(selector.as_str()),
            },
            Refusal::UnparseablePeer { peer } => Refusal::UnparseablePeer {
                peer: copy(peer.as_str()),
            },
            Refusal::NoSuchCgroup { path } => Refusal::NoSuchCgroup { path: copy(path.as_str()) },
            Refusal::StrictReversePath { interface } => Refusal::StrictReversePath {
                interface: copy(interface.as_str()),
            },
        }
    }
}

impl RefusalView {
    /// What a refusal is about, where its sentence shows it in quotes.
    pub open spec fn subject(self) -> Seq<char> {
        match self {
            RefusalView::EmptySelector { selector } => selector,
            RefusalView::UnparseablePeer { peer } => peer,
            _ => ""@,
        }
    }

    /// A sentence a person can act on, where `shown` is the subject in quotes.
    pub open spec fn sentence(self, shown: Seq<char>) -> Seq<char> {
        match self {
            RefusalView::NoSuchInterface { interface, path } => "path "@ + path
                + " needs interface "@ + interface
                + ", which does not exist on this host. Bring the tunnel up first; this tool does not create interfaces."@,
            RefusalView::TorNotTransparent { missing } =>
            "traffic is routed to Tor but Tor has no "@ + missing
                + ". Add it to torrc and reload Tor, otherwise the redirect sends packets to a closed port and the application simply fails to connect."@,
            RefusalView::TorUidUnknown =>
            "Tor's uid is unknown, so its own traffic cannot be excluded from the redirect. Every packet Tor sent to a relay would be sent back to Tor."@,
            RefusalView::WouldStrandAdmin { peer } =>
            "this would capture the connection from "@ + peer
                + ", which is administering this host right now. Applying it ends that session and there is no second one."@,
            RefusalView::EmptySelector { .. } => "selector "@ + shown + " cannot match any socket"@,
            RefusalView::DuplicateSelector { selector } => selector
                + " is claimed by two rules; the first would win and the second would silently do nothing"@,
            RefusalView::StrictReversePath { interface } => interface
                + " has rp_filter=1 (strict), so the kernel will drop every reply that comes back on it. Policy routing makes the return path asymmetric on purpose, so this breaks the moment it is applied -- and it breaks silently: the rules load, the packets leave, the far end answers, and the connection times out as though the other end were at fault. Set net.ipv4.conf."@
                + interface + ".rp_filter=2 (loose) first."@,
            RefusalView::UnparseablePeer { .. } => shown
                + " is not an IP address, so no rule can match it and the session it names would not be excluded. A hostname will not do: nftables matches addresses."@,
            RefusalView::NoSuchCgroup { path } => "no cgroup "@ + path
                + " on this host, so nftables will reject the ruleset -- and with it every other rule in the policy. Start the service first, or select it from what is actually running."@,
        }
    }
}

impl Refusal {
    /// A sentence a person can act on, where `shown` is what the refusal is
    /// about, in quotes.
    pub fn explain_shown(&self, shown: &str) -> (r: String)
        ensures
            r@ == self@.sentence(shown@),
    {
        match self {
            Refusal::NoSuchInterface { interface, path } => {
                let mut s: String = String::from_str("path ");
                s.append(path.as_str());
                s.append(" needs interface ");
                s.append(interface.as_str());
                s.append(
                    ", which does not exist on this host. Bring the tunnel up first; this tool does not create interfaces.",
                );
                s
            },
            Refusal::TorNotTransparent { missing } => {
                let mut s: String = String::from_str("traffic is routed to Tor but Tor has no ");
                s.append(missing);
                s.append(
                    ". Add it to torrc and reload Tor, otherwise the redirect sends packets to a closed port and the application simply fails to connect.",
                );
                s
            },
            Refusal::TorUidUnknown => String::from_str(
                "Tor's uid is unknown, so its own traffic cannot be excluded from the redirect. Every packet Tor sent to a relay would be sent back to Tor.",
            ),
            Refusal::WouldStrandAdmin { peer } => {
                let mut s: String = String::from_str("this would capture the connection from ");
                s.append(peer.as_str());
                s.append(
                    ", which is administering this host right now. Applying it ends that session and there is no second one.",
                );
                s
            },
            Refusal::EmptySelector { .. } => {
                let mut s: String = String::from_str("selector ");
                s.append(shown);
                s.append(" cannot match any socket");
                s
            },
            Refusal::DuplicateSelector { selector } => {
                let mut s: String = copy(selector.as_str());
                s.append(
                    " is claimed by two rules; the first would win and the second would silently do nothing",
                );
                s
            },
            Refusal::StrictReversePath { interface } => {
                let mut s: String = copy(interface.as_str());
                s.append(
                    " has rp_filter=1 (strict), so the kernel will drop every reply that comes back on it. Policy routing makes the return path asymmetric on purpose, so this breaks the moment it is applied -- and it breaks silently: the rules load, the packets leave, the far end answers, and the connection times out as though the other end were at fault. Set net.ipv4.conf.",
                );
                s.append(interface.as_str());
                s.append(".rp_filter=2 (loose) first.");
                s
            },
            Refusal::UnparseablePeer { .. } => {
                let mut s: String = copy(shown);
                s.append(
                    " is not an IP address, so no rule can match it and the session it names would not be excluded. A hostname will not do: nftables matches addresses.",
                );
                s
            },
            Refusal::NoSuchCgroup { path } => {
                let mut s: String = String::from_str("no cgroup ");
                s.append(path.as_str());
                s.append(
                    " on this host, so nftables will reject the ruleset -- and with it every other rule in the policy. Start the service first, or select it from what is actually running.",
                );
                s
            },
        }
    }

    /// A sentence a person can act on.
    pub fn explain(&self) -> (r: String)
        ensures
            r@ == self@.sentence(debug_str(self@.subject())),
    {
        match self {
            Refusal::EmptySelector { selector } => {
                let shown: String = debugged(selector.as_str());
                self.explain_shown(shown.as_str())
            },
            Refusal::UnparseablePeer { peer } => {
                let shown: String = debugged(peer.as_str());
                self.explain_shown(shown.as_str())
            },
            _ => {
                let shown: String = debugged("");
                self.explain_shown(shown.as_str())
            },
        }
    }
}

// ---------------------------------------------------------------------------
// What is wrong with a plan
// ---------------------------------------------------------------------------

/// Whether an earlier rule claims the same sender: one that the kernel is asked
/// for in the same words, however it is named.
pub open spec fn claimed(rules: Seq<RuleView>, i: int) -> bool {
    exists|j: int|
        0 <= j < i && (#[trigger] rules[j]).selector.matching() == rules[i].selector.matching()
}

/// What is wrong with the senders of the first `n` rules: one that matches
/// nothing, or that an earlier rule claims.
pub open spec fn selector_refusals(rules: Seq<RuleView>, n: nat) -> Seq<RefusalView>
    decreases n,
{
    if n == 0 {
        seq![]
    } else {
        let before = selector_refusals(rules, (n - 1) as nat);
        let label = rules[n - 1].selector.label();
        if trim(label).len() == 0 {
            before.push(RefusalView::EmptySelector { selector: label })
        } else if claimed(rules, n - 1) {
            before.push(RefusalView::DuplicateSelector { selector: label })
        } else {
            before
        }
    }
}

/// Whether a cgroup is one of those that exist.
pub open spec fn has_cgroup(host: HostView, path: Seq<char>) -> bool {
    exists|i: int| 0 <= i < host.cgroups.len() && trim_char(#[trigger] host.cgroups[i], '/') == path
}

/// The cgroups that rules name and the host does not have. Nothing is said
/// where the host's cgroups are not known.
pub open spec fn cgroup_refusals(rules: Seq<RuleView>, host: HostView) -> Seq<RefusalView>
    decreases rules.len(),
{
    if rules.len() == 0 {
        seq![]
    } else {
        let before = cgroup_refusals(rules.drop_last(), host);
        match rules.last().selector.cgroup() {
            Some(path) => if host.cgroups.len() > 0 && !has_cgroup(host, path) {
                before.push(RefusalView::NoSuchCgroup { path })
            } else {
                before
            },
            None => before,
        }
    }
}

/// The interfaces that paths need and the host does not have.
pub open spec fn interface_refusals(routes: Seq<PathView>, host: HostView) -> Seq<RefusalView>
    decreases routes.len(),
{
    if routes.len() == 0 {
        seq![]
    } else {
        let before = interface_refusals(routes.drop_last(), host);
        match routes.last().tunnel() {
            Some(i) => if !host.interfaces.contains(i) {
                before.push(
                    RefusalView::NoSuchInterface { interface: i, path: routes.last().label() },
                )
            } else {
                before
            },
            None => before,
        }
    }
}

/// What Tor lacks, where traffic is handed to it.
pub open spec fn tor_refusals(policy: PolicyView, host: HostView) -> Seq<RefusalView> {
    if policy.uses_tor() {
        (if host.tor_trans_port is None {
            seq![RefusalView::TorNotTransparent { missing: "TransPort"@ }]
        } else {
            seq![]
        }) + (if host.tor_dns_port is None {
            seq![RefusalView::TorNotTransparent { missing: "DNSPort"@ }]
        } else {
            seq![]
        }) + (if host.tor_uid is None {
            seq![RefusalView::TorUidUnknown]
        } else {
            seq![]
        })
    } else {
        seq![]
    }
}

/// The reverse-path filter of a name, zero where the kernel reports none.
pub open spec fn filter_of(filters: Seq<(Seq<char>, u8)>, name: Seq<char>) -> u8
    decreases filters.len(),
{
    if filters.len() == 0 {
        0
    } else if filters[0].0 == name {
        filters[0].1
    } else {
        filter_of(filters.skip(1), name)
    }
}

/// Whether an interface drops what comes back another way.
///
/// The kernel uses the larger of `all` and the interface's own value, and the
/// values are 0 for off, 1 for strict, 2 for loose. So strict is exactly that
/// the larger one is 1.
pub open spec fn strict(host: HostView, interface: Seq<char>) -> bool {
    let a = filter_of(host.rp_filter, "all"@);
    let b = filter_of(host.rp_filter, interface);
    (if a >= b {
        a
    } else {
        b
    }) == 1
}

/// The interfaces that would drop the replies, each once.
pub open spec fn strict_refusals(routes: Seq<PathView>, host: HostView) -> Seq<RefusalView>
    decreases routes.len(),
{
    if routes.len() == 0 {
        seq![]
    } else {
        let before = strict_refusals(routes.drop_last(), host);
        match routes.last().tunnel() {
            Some(i) => {
                let r = RefusalView::StrictReversePath { interface: i };
                if strict(host, i) && !before.contains(r) {
                    before.push(r)
                } else {
                    before
                }
            },
            None => before,
        }
    }
}

/// Whether a text spells an address.
#[verifier::opaque]
pub open spec fn is_addr(s: Seq<char>) -> bool {
    read_addr(s) is Some
}

/// The addresses to protect that are no addresses.
pub open spec fn address_refusals(addrs: Seq<Seq<char>>) -> Seq<RefusalView>
    decreases addrs.len(),
{
    if addrs.len() == 0 {
        seq![]
    } else {
        let before = address_refusals(addrs.drop_last());
        if !is_addr(addrs.last()) {
            before.push(RefusalView::UnparseablePeer { peer: addrs.last() })
        } else {
            before
        }
    }
}

/// Whether a ruleset lets a peer's traffic alone.
#[verifier::opaque]
pub open spec fn excludes(nft: Seq<char>, peer: Seq<char>) -> bool {
    contains(nft, daddr_text(peer) + " return"@)
}

/// The sessions that a ruleset would capture.
pub open spec fn strand_refusals(peers: Seq<Seq<char>>, nft: Seq<char>) -> Seq<RefusalView>
    decreases peers.len(),
{
    if peers.len() == 0 {
        seq![]
    } else {
        let before = strand_refusals(peers.drop_last(), nft);
        if is_addr(peers.last()) && !excludes(nft, peers.last()) {
            before.push(RefusalView::WouldStrandAdmin { peer: peers.last() })
        } else {
            before
        }
    }
}

/// Everything wrong with a plan, worst first: nothing is worse than capturing
/// the session that administers the host.
pub open spec fn refusals(plan: PlanView, policy: PolicyView, host: HostView) -> Seq<RefusalView> {
    strand_refusals(host.admin_peers, plan.nft) + selector_refusals(
        policy.rules,
        policy.rules.len(),
    ) + cgroup_refusals(policy.rules, host) + interface_refusals(policy.routes(), host)
        + tor_refusals(policy, host) + strict_refusals(policy.routes(), host) + address_refusals(
        host.admin_peers + host.tunnel_endpoints,
    )
}

// ---------------------------------------------------------------------------
// Finding it
// ---------------------------------------------------------------------------

fn blank(s: &str) -> (r: bool)
    ensures
        r == (trim(s@).len() == 0),
{
    let t: String = trimmed(s);
    let r: bool = same(t.as_str(), "");
    proof {
        reveal_strlit("");
        if t@.len() == 0 {
            assert(t@ =~= ""@);
        }
    }
    r
}

fn append(out: &mut Vec<Refusal>, more: Vec<Refusal>)
    ensures
        views(final(out)@) == views(old(out)@) + views(more@),
{
    let ghost before = out@;
    let mut more: Vec<Refusal> = more;
    let ghost tail = more@;
    out.append(&mut more);
    assert(views(before + tail) =~= views(before) + views(tail));
}

fn check_selectors(policy: &Policy) -> (r: Vec<Refusal>)
    ensures
        views(r@) == selector_refusals(policy@.rules, policy@.rules.len()),
{
    let ghost all = policy@.rules;
    let mut out: Vec<Refusal> = Vec::new();
    let mut senders: Vec<String> = Vec::new();
    let mut i: usize = 0;
    assert(views(out@) =~= selector_refusals(all, 0));
    while i < policy.rules.len()
        invariant
            i <= policy.rules@.len(),
            all == views(policy.rules@),
            senders@.len() == i,
            forall|k: int|
                0 <= k < i ==> (#[trigger] senders@[k])@ == all[k].selector.matching(),
            views(out@) == selector_refusals(all, i as nat),
        decreases policy.rules@.len() - i,
    {
        let label: String = policy.rules[i].selector.label();
        let sender: String = policy.rules[i].selector.nft_match();
        assert(all[i as int] == policy.rules@[i as int]@);
        let known: bool = lists(&senders, sender.as_str());
        assert(known == claimed(all, i as int)) by {
            if known {
                let t = texts(senders@);
                let k = choose|k: int| 0 <= k < t.len() && t[k] == sender@;
                assert(senders@[k]@ == all[k].selector.matching());
            }
            if claimed(all, i as int) {
                let k = choose|k: int|
                    0 <= k < i && (#[trigger] all[k]).selector.matching() == sender@;
                assert(senders@[k]@ == sender@);
                assert(texts(senders@)[k] == sender@);
            }
        }
        let ghost before = out@;
        if blank(label.as_str()) {
            let refusal: Refusal = Refusal::EmptySelector { selector: copy(label.as_str()) };
            out.push(refusal);
            assert(views(out@) =~= views(before).push(refusal@));
        } else if known {
            let refusal: Refusal = Refusal::DuplicateSelector { selector: copy(label.as_str()) };
            out.push(refusal);
            assert(views(out@) =~= views(before).push(refusal@));
        }
        senders.push(sender);
        i += 1;
    }
    out
}

fn cgroup_of(selector: &Selector) -> (r: Option<String>)
    ensures
        crate::text::opt_string(r) == selector@.cgroup(),
{
    match selector {
        Selector::Cgroup(p) => Some(trimmed_char(p.as_str(), '/')),
        Selector::Unit(u) => {
            let mut s: String = String::from_str("system.slice/");
            s.append(u.as_str());
            Some(s)
        },
        Selector::User(_) => None,
    }
}

fn knows_cgroup(host: &Host, path: &str) -> (r: bool)
    ensures
        r == has_cgroup(host@, path@),
{
    let mut i: usize = 0;
    while i < host.cgroups.len()
        invariant
            i <= host.cgroups@.len(),
            forall|k: int|
                0 <= k < i ==> trim_char(#[trigger] host@.cgroups[k], '/') != path@,
        decreases host.cgroups@.len() - i,
    {
        assert(host@.cgroups[i as int] == host.cgroups@[i as int]@);
        if same(trimmed_char(host.cgroups[i].as_str(), '/').as_str(), path) {
            return true;
        }
        i += 1;
    }
    false
}

fn check_cgroups(policy: &Policy, host: &Host) -> (r: Vec<Refusal>)
    ensures
        views(r@) == cgroup_refusals(policy@.rules, host@),
{
    let ghost all = policy@.rules;
    let mut out: Vec<Refusal> = Vec::new();
    let mut i: usize = 0;
    assert(all.take(0) =~= Seq::<RuleView>::empty());
    assert(views(out@) =~= cgroup_refusals(all.take(0), host@));
    assert(host@.cgroups.len() == host.cgroups@.len());
    while i < policy.rules.len()
        invariant
            i <= policy.rules@.len(),
            all == views(policy.rules@),
            host@.cgroups.len() == host.cgroups@.len(),
            views(out@) == cgroup_refusals(all.take(i as int), host@),
        decreases policy.rules@.len() - i,
    {
        assert(all.take(i + 1).drop_last() =~= all.take(i as int));
        assert(all.take(i + 1).last() == policy.rules@[i as int]@);
        if let Some(wanted) = cgroup_of(&policy.rules[i].selector) {
            if host.cgroups.len() > 0 && !knows_cgroup(host, wanted.as_str()) {
                let ghost before = out@;
                let refusal: Refusal = Refusal::NoSuchCgroup { path: wanted };
                out.push(refusal);
                assert(views(out@) =~= views(before).push(refusal@));
            }
        }
        i += 1;
    }
    assert(all.take(i as int) =~= all);
    out
}

/// Every path traffic may take under a policy.
fn routes_of(policy: &Policy) -> (r: Vec<Path>)
    ensures
        views(r@) == policy@.routes(),
{
    let mut out: Vec<Path> = Vec::new();
    let mut i: usize = 0;
    while i < policy.rules.len()
        invariant
            i <= policy.rules@.len(),
            views(out@) =~= policy@.routes().take(i as int),
        decreases policy.rules@.len() - i,
    {
        let ghost before = out@;
        out.push(policy.rules[i].path.clone());
        assert(policy@.rules[i as int] == policy.rules@[i as int]@);
        assert(views(out@) =~= views(before).push(policy@.rules[i as int].path));
        i += 1;
    }
    let ghost before = out@;
    out.push(policy.default_path.clone());
    assert(views(out@) =~= views(before).push(policy@.default_path));
    assert(views(out@) =~= policy@.routes());
    out
}

fn check_interfaces(routes: &Vec<Path>, host: &Host) -> (r: Vec<Refusal>)
    ensures
        views(r@) == interface_refusals(views(routes@), host@),
{
    let ghost all = views(routes@);
    let mut out: Vec<Refusal> = Vec::new();
    let mut i: usize = 0;
    assert(all.take(0) =~= Seq::<PathView>::empty());
    assert(views(out@) =~= interface_refusals(all.take(0), host@));
    while i < routes.len()
        invariant
            i <= routes@.len(),
            all == views(routes@),
            views(out@) == interface_refusals(all.take(i as int), host@),
        decreases routes@.len() - i,
    {
        assert(all.take(i + 1).drop_last() =~= all.take(i as int));
        assert(all.take(i + 1).last() == routes@[i as int]@);
        if let Some(iface) = routes[i].interface() {
            if !lists(&host.interfaces, iface) {
                let ghost before = out@;
                let refusal: Refusal = Refusal::NoSuchInterface {
                    interface: copy(iface),
                    path: routes[i].label(),
                };
                out.push(refusal);
                assert(views(out@) =~= views(before).push(refusal@));
            }
        }
        i += 1;
    }
    assert(all.take(i as int) =~= all);
    out
}

fn any_tor(routes: &Vec<Path>) -> (r: bool)
    ensures
        r == exists|i: int| 0 <= i < routes@.len() && (#[trigger] views(routes@)[i]).tor(),
{
    let mut i: usize = 0;
    while i < routes.len()
        invariant
            i <= routes@.len(),
            forall|k: int| 0 <= k < i ==> !(#[trigger] views(routes@)[k]).tor(),
        decreases routes@.len() - i,
    {
        assert(views(routes@)[i as int] == routes@[i as int]@);
        if routes[i].uses_tor() {
            return true;
        }
        i += 1;
    }
    false
}

fn check_tor(uses_tor: bool, host: &Host, policy: Ghost<PolicyView>) -> (r: Vec<Refusal>)
    requires
        uses_tor == policy@.uses_tor(),
    ensures
        views(r@) == tor_refusals(policy@, host@),
{
    let mut out: Vec<Refusal> = Vec::new();
    if uses_tor {
        if host.tor_trans_port.is_none() {
            out.push(Refusal::TorNotTransparent { missing: "TransPort" });
        }
        if host.tor_dns_port.is_none() {
            out.push(Refusal::TorNotTransparent { missing: "DNSPort" });
        }
        if host.tor_uid.is_none() {
            out.push(Refusal::TorUidUnknown);
        }
    }
    assert(views(out@) =~= tor_refusals(policy@, host@));
    out
}

fn filter_for(filters: &Vec<(String, u8)>, name: &str) -> (r: u8)
    ensures
        r == filter_of(filter_views(filters@), name@),
{
    let ghost all = filter_views(filters@);
    let mut i: usize = 0;
    assert(all.skip(0) =~= all);
    while i < filters.len()
        invariant
            i <= filters@.len(),
            all == filter_views(filters@),
            filter_of(all, name@) == filter_of(all.skip(i as int), name@),
        decreases filters@.len() - i,
    {
        assert(all.skip(i as int)[0] == (filters@[i as int].0@, filters@[i as int].1));
        if same(filters[i].0.as_str(), name) {
            return filters[i].1;
        }
        assert(all.skip(i as int).skip(1) =~= all.skip(i + 1));
        i += 1;
    }
    0
}

fn drops_replies(host: &Host, interface: &str) -> (r: bool)
    ensures
        r == strict(host@, interface@),
{
    let all: u8 = filter_for(&host.rp_filter, "all");
    let own: u8 = filter_for(&host.rp_filter, interface);
    (if all >= own {
        all
    } else {
        own
    }) == 1
}

fn already_strict(out: &Vec<Refusal>, interface: &str) -> (r: bool)
    ensures
        r == views(out@).contains(RefusalView::StrictReversePath { interface: interface@ }),
{
    let ghost wanted = RefusalView::StrictReversePath { interface: interface@ };
    let mut i: usize = 0;
    while i < out.len()
        invariant
            i <= out@.len(),
            wanted == (RefusalView::StrictReversePath { interface: interface@ }),
            forall|k: int| 0 <= k < i ==> (#[trigger] out@[k])@ != wanted,
        decreases out@.len() - i,
    {
        let found: bool = match &out[i] {
            Refusal::StrictReversePath { interface: other } => same(other.as_str(), interface),
            _ => false,
        };
        if found {
            assert(views(out@)[i as int] == wanted);
            return true;
        }
        i += 1;
    }
    proof {
        if views(out@).contains(wanted) {
            let k = choose|k: int| 0 <= k < views(out@).len() && views(out@)[k] == wanted;
            assert(out@[k]@ == wanted);
        }
    }
    false
}

fn check_filters(routes: &Vec<Path>, host: &Host) -> (r: Vec<Refusal>)
    ensures
        views(r@) == strict_refusals(views(routes@), host@),
{
    let ghost all = views(routes@);
    let mut out: Vec<Refusal> = Vec::new();
    let mut i: usize = 0;
    assert(all.take(0) =~= Seq::<PathView>::empty());
    assert(views(out@) =~= strict_refusals(all.take(0), host@));
    while i < routes.len()
        invariant
            i <= routes@.len(),
            all == views(routes@),
            views(out@) == strict_refusals(all.take(i as int), host@),
        decreases routes@.len() - i,
    {
        assert(all.take(i + 1).drop_last() =~= all.take(i as int));
        assert(all.take(i + 1).last() == routes@[i as int]@);
        if let Some(iface) = routes[i].interface() {
            if drops_replies(host, iface) && !already_strict(&out, iface) {
                let ghost before = out@;
                let refusal: Refusal = Refusal::StrictReversePath { interface: copy(iface) };
                out.push(refusal);
                assert(views(out@) =~= views(before).push(refusal@));
            }
        }
        i += 1;
    }
    assert(all.take(i as int) =~= all);
    out
}

fn check_addresses(addrs: &Vec<String>, earlier: Ghost<Seq<Seq<char>>>, out: &mut Vec<Refusal>)
    requires
        views(old(out)@) == address_refusals(earlier@),
    ensures
        views(final(out)@) == address_refusals(earlier@ + texts(addrs@)),
{
    let ghost start = earlier@;
    let ghost all = texts(addrs@);
    let mut i: usize = 0;
    assert(start + all.take(0) =~= start);
    while i < addrs.len()
        invariant
            i <= addrs@.len(),
            all == texts(addrs@),
            views(out@) == address_refusals(start + all.take(i as int)),
        decreases addrs@.len() - i,
    {
        let ghost next = start + all.take(i + 1);
        assert(next.drop_last() =~= start + all.take(i as int));
        assert(next.last() == addrs@[i as int]@);
        if !spells_addr(addrs[i].as_str()) {
            let ghost before = out@;
            let refusal: Refusal = Refusal::UnparseablePeer { peer: copy(addrs[i].as_str()) };
            out.push(refusal);
            assert(views(out@) =~= views(before).push(refusal@));
        }
        i += 1;
    }
    assert(all.take(i as int) =~= all);
}

fn spells_addr(s: &str) -> (r: bool)
    ensures
        r == is_addr(s@),
{
    proof {
        reveal(is_addr);
    }
    IpAddr::parse(s).is_some()
}

/// Whether a ruleset lets a peer's traffic alone. The generated text is read
/// rather than trusting that the generator did its job.
fn excluded(nft: &str, peer: &str) -> (r: bool)
    ensures
        r == excludes(nft@, peer@),
{
    proof {
        reveal(excludes);
    }
    let mut wanted: String = daddr(peer);
    wanted.append(" return");
    holds(nft, wanted.as_str())
}

fn check_sessions(peers: &Vec<String>, nft: &str) -> (r: Vec<Refusal>)
    ensures
        views(r@) == strand_refusals(texts(peers@), nft@),
{
    let ghost all = texts(peers@);
    let mut out: Vec<Refusal> = Vec::new();
    let mut i: usize = 0;
    assert(all.take(0) =~= Seq::<Seq<char>>::empty());
    assert(views(out@) =~= strand_refusals(all.take(0), nft@));
    while i < peers.len()
        invariant
            i <= peers@.len(),
            all == texts(peers@),
            views(out@) == strand_refusals(all.take(i as int), nft@),
        decreases peers@.len() - i,
    {
        assert(all.take(i + 1).drop_last() =~= all.take(i as int));
        assert(all.take(i + 1).last() == peers@[i as int]@);
        if spells_addr(peers[i].as_str()) && !excluded(nft, peers[i].as_str()) {
            let ghost before = out@;
            let refusal: Refusal = Refusal::WouldStrandAdmin { peer: copy(peers[i].as_str()) };
            out.push(refusal);
            assert(views(out@) =~= views(before).push(refusal@));
        }
        i += 1;
    }
    assert(all.take(i as int) =~= all);
    out
}

// ---------------------------------------------------------------------------
// A plan to read
// ---------------------------------------------------------------------------

pub open spec fn note_lines(notes: Seq<Seq<char>>) -> Seq<Seq<char>>
    decreases notes.len(),
{
    if notes.len() == 0 {
        seq![]
    } else {
        note_lines(notes.drop_last()).push(""@).push("# note: "@ + notes.last())
    }
}

/// A plan as something to read, line by line.
pub open spec fn plan_lines(plan: PlanView) -> Seq<Seq<char>> {
    seq![plan.nft] + (if plan.ip.len() > 0 {
        seq!["# routing"@] + plan.ip
    } else {
        seq![]
    }) + (if plan.torrc.len() > 0 {
        seq![""@, "# /etc/tor/torrc must contain"@] + plan.torrc
    } else {
        seq![]
    }) + note_lines(plan.notes)
}

fn add_copies(out: &mut Vec<String>, more: &Vec<String>)
    ensures
        texts(final(out)@) == texts(old(out)@) + texts(more@),
{
    let ghost start = texts(out@);
    let ghost all = texts(more@);
    let mut i: usize = 0;
    assert(texts(out@) =~= start + all.take(0));
    while i < more.len()
        invariant
            i <= more@.len(),
            all == texts(more@),
            texts(out@) == start + all.take(i as int),
        decreases more@.len() - i,
    {
        let ghost before = out@;
        let s: String = copy(more[i].as_str());
        out.push(s);
        assert(texts(out@) =~= texts(before).push(s@));
        assert(texts(out@) =~= start + all.take(i + 1));
        i += 1;
    }
    assert(all.take(i as int) =~= all);
}

impl Plan {
    /// Everything wrong with this plan, worst first. Empty means it can be
    /// applied.
    ///
    /// The check that matters most is that the ruleset excludes whoever is
    /// administering the host. The generated text is read rather than trusting
    /// that the generator did its job.
    pub fn preflight(&self, policy: &Policy, host: &Host) -> (r: Vec<Refusal>)
        ensures
            views(r@) == refusals(self@, policy@, host@),
    {
        let mut out: Vec<Refusal> = check_sessions(&host.admin_peers, self.nft.as_str());
        append(&mut out, check_selectors(policy));
        append(&mut out, check_cgroups(policy, host));
        let routes: Vec<Path> = routes_of(policy);
        append(&mut out, check_interfaces(&routes, host));
        let uses_tor: bool = any_tor(&routes);
        assert(uses_tor == policy@.uses_tor()) by {
            assert(views(routes@).len() == routes@.len());
            if uses_tor {
                let k = choose|k: int|
                    0 <= k < routes@.len() && (#[trigger] views(routes@)[k]).tor();
                assert(policy@.routes()[k].tor());
            }
            if policy@.uses_tor() {
                let k = choose|k: int|
                    0 <= k < policy@.routes().len() && (#[trigger] policy@.routes()[k]).tor();
                assert(views(routes@)[k].tor());
            }
        }
        append(&mut out, check_tor(uses_tor, host, Ghost(policy@)));
        append(&mut out, check_filters(&routes, host));
        let mut bad: Vec<Refusal> = Vec::new();
        assert(views(bad@) =~= address_refusals(seq![]));
        check_addresses(&host.admin_peers, Ghost(Seq::empty()), &mut bad);
        assert(Seq::<Seq<char>>::empty() + host@.admin_peers =~= host@.admin_peers);
        check_addresses(&host.tunnel_endpoints, Ghost(host@.admin_peers), &mut bad);
        append(&mut out, bad);
        out
    }

    /// The whole plan as something to read before applying it.
    pub fn render(&self) -> (r: String)
        ensures
            r@ == unlines(plan_lines(self@)),
    {
        let mut out: Vec<String> = Vec::new();
        out.push(copy(self.nft.as_str()));
        assert(texts(out@) =~= seq![self@.nft]);
        assert(self@.ip.len() == self.ip@.len());
        assert(self@.torrc.len() == self.torrc@.len());
        let ghost before = texts(out@);
        if self.ip.len() > 0 {
            out.push(String::from_str("# routing"));
            assert(texts(out@) =~= before + seq!["# routing"@]);
            add_copies(&mut out, &self.ip);
            assert(texts(out@) =~= before + (seq!["# routing"@] + self@.ip));
        } else {
            assert(texts(out@) =~= before + Seq::<Seq<char>>::empty());
        }
        let ghost before = texts(out@);
        if self.torrc.len() > 0 {
            out.push(String::from_str(""));
            out.push(String::from_str("# /etc/tor/torrc must contain"));
            assert(texts(out@) =~= before + seq![""@, "# /etc/tor/torrc must contain"@]);
            add_copies(&mut out, &self.torrc);
            assert(texts(out@) =~= before + (seq![""@, "# /etc/tor/torrc must contain"@]
                + self@.torrc));
        } else {
            assert(texts(out@) =~= before + Seq::<Seq<char>>::empty());
        }
        let ghost start = texts(out@);
        let ghost all = texts(self.notes@);
        let mut i: usize = 0;
        assert(all.take(0) =~= Seq::<Seq<char>>::empty());
        assert(texts(out@) =~= start + note_lines(all.take(0)));
        while i < self.notes.len()
            invariant
                i <= self.notes@.len(),
                all == texts(self.notes@),
                texts(out@) == start + note_lines(all.take(i as int)),
            decreases self.notes@.len() - i,
        {
            assert(all.take(i + 1).drop_last() =~= all.take(i as int));
            let ghost was = out@;
            let mut s: String = String::from_str("# note: ");
            s.append(self.notes[i].as_str());
            out.push(String::from_str(""));
            out.push(s);
            assert(texts(out@) =~= texts(was).push(""@).push(s@));
            assert(texts(out@) =~= start + note_lines(all.take(i + 1)));
            i += 1;
        }
        assert(all.take(i as int) =~= all);
        with_line_feeds(&out)
    }
}

/// Everything of a plan is shown: the ruleset first, then every routing command,
/// every line for Tor and every note.
pub proof fn everything_of_a_plan_is_shown(plan: PlanView, i: int)
    ensures
        plan_lines(plan)[0] == plan.nft,
        0 <= i < plan.ip.len() ==> plan_lines(plan).contains(plan.ip[i]),
        0 <= i < plan.torrc.len() ==> plan_lines(plan).contains(plan.torrc[i]),
        0 <= i < plan.notes.len() ==> plan_lines(plan).contains("# note: "@ + plan.notes[i]),
{
    let all = plan_lines(plan);
    let a = 1 + if plan.ip.len() > 0 {
        plan.ip.len() + 1
    } else {
        0nat
    };
    let b = a + if plan.torrc.len() > 0 {
        plan.torrc.len() + 2
    } else {
        0nat
    };
    if 0 <= i < plan.ip.len() {
        assert(all[2 + i] == plan.ip[i]);
    }
    if 0 <= i < plan.torrc.len() {
        assert(all[a + 2 + i] == plan.torrc[i]);
    }
    if 0 <= i < plan.notes.len() {
        lemma_note(plan.notes, i);
        assert(all[b + 2 * i + 1] == note_lines(plan.notes)[2 * i + 1]);
    }
}

proof fn lemma_note(notes: Seq<Seq<char>>, i: int)
    requires
        0 <= i < notes.len(),
    ensures
        note_lines(notes).len() == 2 * notes.len(),
        note_lines(notes)[2 * i + 1] == "# note: "@ + notes[i],
    decreases notes.len(),
{
    let t = notes.drop_last();
    if i < t.len() {
        lemma_note(t, i);
        assert(t[i] == notes[i]);
    } else {
        lemma_notes_counted(t);
    }
}

proof fn lemma_notes_counted(notes: Seq<Seq<char>>)
    ensures
        note_lines(notes).len() == 2 * notes.len(),
    decreases notes.len(),
{
    if notes.len() > 0 {
        lemma_notes_counted(notes.drop_last());
    }
}

/// Each refusal names what it is about.
pub proof fn a_refusal_names_its_subject(r: RefusalView, shown: Seq<char>)
    ensures
        r matches RefusalView::NoSuchInterface { interface, path } ==> contains(
            r.sentence(shown),
            interface,
        ) && contains(r.sentence(shown), path),
        r matches RefusalView::TorNotTransparent { missing } ==> contains(
            r.sentence(shown),
            missing,
        ),
        r matches RefusalView::WouldStrandAdmin { peer } ==> contains(r.sentence(shown), peer),
        r matches RefusalView::DuplicateSelector { selector } ==> contains(
            r.sentence(shown),
            selector,
        ),
        r matches RefusalView::StrictReversePath { interface } ==> contains(
            r.sentence(shown),
            interface,
        ),
        r matches RefusalView::NoSuchCgroup { path } ==> contains(r.sentence(shown), path),
        r is EmptySelector ==> contains(r.sentence(shown), shown),
        r is UnparseablePeer ==> contains(r.sentence(shown), shown),
{
    let s = r.sentence(shown);
    match r {
        RefusalView::NoSuchInterface { interface, path } => {
            let a = "path "@;
            let b = "path "@ + path + " needs interface "@;
            assert(s.subrange(a.len() as int, a.len() as int + path.len()) =~= path);
            assert(crate::text::has_at(s, path, a.len() as int));
            assert(s.subrange(b.len() as int, b.len() as int + interface.len()) =~= interface);
            assert(crate::text::has_at(s, interface, b.len() as int));
        },
        RefusalView::TorNotTransparent { missing } => {
            let a = "traffic is routed to Tor but Tor has no "@;
            assert(s.subrange(a.len() as int, a.len() as int + missing.len()) =~= missing);
            assert(crate::text::has_at(s, missing, a.len() as int));
        },
        RefusalView::TorUidUnknown => {},
        RefusalView::WouldStrandAdmin { peer } => {
            let a = "this would capture the connection from "@;
            assert(s.subrange(a.len() as int, a.len() as int + peer.len()) =~= peer);
            assert(crate::text::has_at(s, peer, a.len() as int));
        },
        RefusalView::EmptySelector { .. } => {
            let a = "selector "@;
            assert(s.subrange(a.len() as int, a.len() as int + shown.len()) =~= shown);
            assert(crate::text::has_at(s, shown, a.len() as int));
        },
        RefusalView::DuplicateSelector { selector } => {
            assert(s.subrange(0, selector.len() as int) =~= selector);
            assert(crate::text::has_at(s, selector, 0));
        },
        RefusalView::StrictReversePath { interface } => {
            assert(s.subrange(0, interface.len() as int) =~= interface);
            assert(crate::text::has_at(s, interface, 0));
        },
        RefusalView::UnparseablePeer { .. } => {
            assert(s.subrange(0, shown.len() as int) =~= shown);
            assert(crate::text::has_at(s, shown, 0));
        },
        RefusalView::NoSuchCgroup { path } => {
            let a = "no cgroup "@;
            assert(s.subrange(a.len() as int, a.len() as int + path.len()) =~= path);
            assert(crate::text::has_at(s, path, a.len() as int));
        },
    }
}

} // verus!
