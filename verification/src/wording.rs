//! How the words of a plan are chosen.
//!
//! A ruleset is text, and a word out of place in it is a rule that matches
//! nothing. What is said here of senders, addresses and ports is said of the text
//! itself, and holds whoever writes it.

use vstd::prelude::*;
use vstd::string::*;

use crate::addr::{an_address_reads_back, read_addr, IpAddr};
use crate::guarantees::{every_refusal_has_its_cause, lemma_lanes};
use crate::num::{dec, dec_is_injective, lemma_dec_digits};
use crate::policy::{
    daddr_text, masq_chain, masquerade_lines, most_tunnels, numbered, plan_for, torrc_lines,
    HostView, PathView, PlanView, PolicyView, SelectorView,
};
use crate::preflight::{claimed, filter_of, has_cgroup, refusals, strict, RefusalView};
use crate::probe::{a_line_of_the_key_gives_the_port, port_on};
use crate::text::{
    lemma_inside, lemma_trimmed_stays, split, trim, trim_char,
    trim_end_char, trim_start_char,
};

verus! {

// ---------------------------------------------------------------------------
// Senders
// ---------------------------------------------------------------------------

/// How often a character comes in a text.
pub open spec fn how_often(s: Seq<char>, c: char) -> nat
    decreases s.len(),
{
    if s.len() == 0 {
        0
    } else {
        how_often(s.drop_last(), c) + if s.last() == c {
            1nat
        } else {
            0
        }
    }
}

proof fn lemma_how_often_parts(x: Seq<char>, y: Seq<char>, c: char)
    ensures
        how_often(x + y, c) == how_often(x, c) + how_often(y, c),
    decreases y.len(),
{
    if y.len() == 0 {
        assert(x + y =~= x);
    } else {
        lemma_how_often_parts(x, y.drop_last(), c);
        assert((x + y).drop_last() =~= x + y.drop_last());
        assert((x + y).last() == y.last());
    }
}

proof fn lemma_never(s: Seq<char>, c: char)
    requires
        forall|i: int| 0 <= i < s.len() ==> #[trigger] s[i] != c,
    ensures
        how_often(s, c) == 0,
    decreases s.len(),
{
    if s.len() > 0 {
        lemma_never(s.drop_last(), c);
    }
}

proof fn lemma_fields_counted(s: Seq<char>, c: char)
    ensures
        split(s, c).len() == how_often(s, c) + 1,
    decreases s.len(),
{
    crate::text::lemma_find_char(s, c);
    let i = crate::text::find_char(s, c);
    if i < s.len() {
        let a = s.take(i);
        let b = s.skip(i + 1);
        lemma_fields_counted(b, c);
        assert forall|j: int| 0 <= j < a.len() implies #[trigger] a[j] != c by {
            assert(a[j] == s[j]);
        }
        lemma_never(a, c);
        assert(s =~= a + seq![c] + b);
        lemma_how_often_parts(a + seq![c], b, c);
        lemma_how_often_parts(a, seq![c], c);
        assert(seq![c].drop_last() =~= seq![]);
        assert(how_often(seq![c], c) == 1) by {
            assert(how_often(seq![c].drop_last(), c) == 0);
        }
    } else {
        lemma_never(s, c);
    }
}

proof fn lemma_untrimmed(p: Seq<char>, c: char)
    requires
        p.len() == 0 || (p[0] != c && p.last() != c),
    ensures
        trim_char(p, c) == p,
{
}

/// A cgroup is asked for by its path and by how deep the path is: one more than
/// there are slashes in it. Slashes around the path are no part of it.
pub proof fn a_cgroup_is_asked_for_at_its_own_depth(p: Seq<char>)
    requires
        p.len() > 0,
        p[0] != '/',
        p.last() != '/',
    ensures
        SelectorView::Cgroup(p).matching() == "socket cgroupv2 level "@ + dec(
            how_often(p, '/') + 1,
        ) + " \""@ + p + "\""@,
        SelectorView::Cgroup(seq!['/'] + p).matching() == SelectorView::Cgroup(p).matching(),
        SelectorView::Cgroup(p + seq!['/']).matching() == SelectorView::Cgroup(p).matching(),
        SelectorView::Cgroup(p).cgroup() == Some(p),
        SelectorView::Cgroup(seq!['/'] + p).cgroup() == Some(p),
{
    lemma_untrimmed(p, '/');
    lemma_fields_counted(p, '/');
    let front = seq!['/'] + p;
    assert(front.skip(1) =~= p);
    assert(trim_start_char(front, '/') == trim_start_char(p, '/'));
    let back = p + seq!['/'];
    assert(back.drop_last() =~= p);
    assert(trim_start_char(back, '/') == back);
    assert(trim_end_char(back, '/') == trim_end_char(p, '/'));
}

/// One component more is one level more.
pub proof fn a_deeper_cgroup_is_one_level_deeper(p: Seq<char>, name: Seq<char>)
    requires
        p.len() > 0,
        p[0] != '/',
        name.len() > 0,
        !name.contains('/'),
    ensures
        how_often(p + seq!['/'] + name, '/') == how_often(p, '/') + 1,
        SelectorView::Cgroup(p + seq!['/'] + name).matching() == "socket cgroupv2 level "@ + dec(
            how_often(p, '/') + 2,
        ) + " \""@ + (p + seq!['/'] + name) + "\""@,
{
    let q = p + seq!['/'] + name;
    assert forall|i: int| 0 <= i < name.len() implies #[trigger] name[i] != '/' by {
        assert(name.contains(name[i]));
    }
    lemma_never(name, '/');
    lemma_how_often_parts(p + seq!['/'], name, '/');
    lemma_how_often_parts(p, seq!['/'], '/');
    assert(seq!['/'].drop_last() =~= seq![]);
    assert(how_often(seq!['/'].drop_last(), '/') == 0);
    assert(how_often(seq!['/'], '/') == 1);
    assert(q.last() == name[name.len() - 1]);
    a_cgroup_is_asked_for_at_its_own_depth(q);
}

/// A unit is the cgroup of its name under the system's slice, and is asked for
/// in the same words.
pub proof fn a_unit_is_its_cgroup(u: Seq<char>)
    requires
        u.len() > 0,
        !u.contains('/'),
    ensures
        SelectorView::Unit(u).matching() == SelectorView::Cgroup("system.slice/"@ + u).matching(),
        SelectorView::Unit(u).cgroup() == SelectorView::Cgroup("system.slice/"@ + u).cgroup(),
        SelectorView::Unit(u).cgroup() == Some("system.slice/"@ + u),
{
    let slice = "system.slice"@;
    reveal_strlit("system.slice");
    reveal_strlit("system.slice/");
    reveal_strlit("socket cgroupv2 level ");
    reveal_strlit("socket cgroupv2 level 2 \"system.slice/");
    reveal_strlit(" \"");
    reveal_strlit("2");
    assert("system.slice/"@ + u =~= slice + seq!['/'] + u);
    lemma_never(slice, '/');
    a_deeper_cgroup_is_one_level_deeper(slice, u);
    assert(dec(2) =~= seq!['2']);
    assert(u.contains(u[u.len() - 1]));
    a_cgroup_is_asked_for_at_its_own_depth("system.slice/"@ + u);
    assert("socket cgroupv2 level 2 \"system.slice/"@ + u + "\""@ =~= "socket cgroupv2 level "@ + dec(2)
        + " \""@ + ("system.slice/"@ + u) + "\""@);
}

/// A user is asked for by the number, and two users in the same words only where
/// they are one.
pub proof fn a_user_is_asked_for_by_number(a: u32, b: u32)
    ensures
        SelectorView::User(a).matching() == "meta skuid "@ + dec(a as nat),
        SelectorView::User(a).matching() == SelectorView::User(b).matching() <==> a == b,
        SelectorView::User(a).cgroup() is None,
        SelectorView::User(a).label() == "uid "@ + dec(a as nat),
{
    reveal_strlit("meta skuid ");
    if SelectorView::User(a).matching() == SelectorView::User(b).matching() {
        assert(SelectorView::User(a).matching().skip(11) =~= dec(a as nat));
        assert(SelectorView::User(b).matching().skip(11) =~= dec(b as nat));
        dec_is_injective(a as nat, b as nat);
    }
}

// ---------------------------------------------------------------------------
// Addresses
// ---------------------------------------------------------------------------

/// An address is matched in the family of the packets that carry it: an IPv4 one,
/// and one that is written as an IPv6 one, among IPv4 packets, and every other
/// among IPv6 packets.
pub proof fn an_address_is_matched_in_its_own_family(a: IpAddr)
    ensures
        (match a {
            IpAddr::V4(..) => daddr_text(a.spelling()) == "ip daddr "@ + a.spelling(),
            IpAddr::V6(0, 0, 0, 0, 0, 0xffff, g, h) => daddr_text(a.spelling()) == "ip daddr "@
                + IpAddr::V4(
                (g / 256) as u8,
                (g % 256) as u8,
                (h / 256) as u8,
                (h % 256) as u8,
            ).spelling(),
            IpAddr::V6(..) => daddr_text(a.spelling()) == "ip6 daddr "@ + a.spelling(),
        }),
{
    an_address_reads_back(a);
}

// ---------------------------------------------------------------------------
// Tor
// ---------------------------------------------------------------------------

/// The ports of Tor are those that were found, and the usual ones where none
/// was.
pub proof fn tors_ports_are_those_that_were_found(host: HostView, port: u16)
    ensures
        host.tor_trans_port == Some(port) ==> host.trans() == port,
        host.tor_dns_port == Some(port) ==> host.dns() == port,
        host.tor_trans_port is None ==> host.trans() == 9040,
        host.tor_dns_port is None ==> host.dns() == 9053,
{
}

/// What a plan asks of Tor's configuration is, read as a configuration, exactly
/// the ports to which it hands traffic; and it asks for nothing where no traffic
/// is handed to Tor.
pub proof fn what_is_asked_of_tor_is_what_is_used(policy: PolicyView, host: HostView)
    ensures
        !policy.uses_tor() ==> plan_for(policy, host).torrc.len() == 0,
        policy.uses_tor() ==> plan_for(policy, host).torrc.len() == 4 && port_on(
            plan_for(policy, host).torrc[0],
            "TransPort"@,
        ) == Some(host.trans()) && port_on(plan_for(policy, host).torrc[1], "DNSPort"@) == Some(
            host.dns(),
        ) && plan_for(policy, host).torrc[2] == "AutomapHostsOnResolve 1"@ && plan_for(
            policy,
            host,
        ).torrc[3] == "AutomapHostsSuffixes .onion,.exit"@,
{
    if policy.uses_tor() {
        let lines = torrc_lines(policy, host);
        reveal_strlit("TransPort 127.0.0.1:");
        reveal_strlit("DNSPort 127.0.0.1:");
        reveal_strlit("TransPort");
        reveal_strlit("DNSPort");
        reveal_strlit("127.0.0.1:");
        lemma_setting(lines[0], "TransPort"@, host.trans());
        lemma_setting(lines[1], "DNSPort"@, host.dns());
    }
}

proof fn lemma_setting(line: Seq<char>, key: Seq<char>, port: u16)
    requires
        key.len() > 0,
        key[0] == 'T' || key[0] == 'D',
        line =~= key + seq![' '] + "127.0.0.1:"@ + dec(port as nat),
    ensures
        port_on(line, key) == Some(port),
{
    reveal_strlit("127.0.0.1:");
    lemma_dec_digits(port as nat);
    assert(line[0] == key[0]);
    assert(line.last() == dec(port as nat)[dec(port as nat).len() - 1]);
    lemma_trimmed_stays(line);
    assert(line =~= key + (seq![' '] + ("127.0.0.1:"@ + dec(port as nat))));
    a_line_of_the_key_gives_the_port(line, key, "127.0.0.1:"@, port, seq![]);
}

// ---------------------------------------------------------------------------
// Tunnels
// ---------------------------------------------------------------------------

/// What leaves by a tunnel leaves with the tunnel's address: every tunnel of a
/// policy has its line, and no other interface has one.
pub proof fn every_tunnel_is_masqueraded(policy: PolicyView, interface: Seq<char>)
    requires
        policy.tunnels().len() <= most_tunnels(),
    ensures
        masquerade_lines(policy.lanes()).contains(
            "    oifname \""@ + interface + "\" masquerade"@,
        ) <==> exists|i: int|
            0 <= i < policy.tunnels().len() && (#[trigger] policy.tunnels()[i]).tunnel() == Some(
                interface,
            ),
        masq_chain(policy.lanes()).len() == 0 <==> policy.tunnels().len() == 0,
{
    lemma_lanes(policy);
    let lanes = policy.lanes();
    let n = numbered(policy.tunnels());
    let all = masquerade_lines(lanes);
    let line = "    oifname \""@ + interface + "\" masquerade"@;
    reveal_strlit("    oifname \"");
    reveal_strlit("\" masquerade");
    crate::policy::lemma_lane_numbers(policy);
    if all.contains(line) {
        let k = choose|k: int| 0 <= k < all.len() && all[k] == line;
        let other = lanes[k].interface();
        assert(line.subrange(13, line.len() - 12) =~= interface);
        assert(all[k].subrange(13, all[k].len() - 12) =~= other);
        assert(n.contains(lanes[k]));
        let i = choose|i: int| 0 <= i < n.len() && n[i] == lanes[k];
        assert(policy.tunnels()[i].tunnel() == Some(interface));
    }
    if exists|i: int|
        0 <= i < policy.tunnels().len() && (#[trigger] policy.tunnels()[i]).tunnel() == Some(
            interface,
        ) {
        let i = choose|i: int|
            0 <= i < policy.tunnels().len() && (#[trigger] policy.tunnels()[i]).tunnel() == Some(
                interface,
            );
        assert(n.contains(n[i]));
        assert(lanes.contains(n[i]));
        let k = choose|k: int| 0 <= k < lanes.len() && lanes[k] == n[i];
        assert(all[k] == line);
    }
}

/// Whether a filter lists a value for a name before any other value for it.
pub open spec fn first_filter(filters: Seq<(Seq<char>, u8)>, name: Seq<char>, v: u8) -> bool {
    exists|i: int|
        0 <= i < filters.len() && (#[trigger] filters[i]) == (name, v) && forall|k: int|
            0 <= k < i ==> (#[trigger] filters[k]).0 != name
}

proof fn lemma_filter(filters: Seq<(Seq<char>, u8)>, name: Seq<char>)
    ensures
        (exists|i: int| 0 <= i < filters.len() && (#[trigger] filters[i]).0 == name) ==> first_filter(
            filters,
            name,
            filter_of(filters, name),
        ),
        (forall|i: int| 0 <= i < filters.len() ==> (#[trigger] filters[i]).0 != name) ==> filter_of(
            filters,
            name,
        ) == 0,
    decreases filters.len(),
{
    if filters.len() > 0 {
        if filters[0].0 == name {
            assert(filters[0] == (name, filter_of(filters, name)));
        } else {
            let t = filters.skip(1);
            lemma_filter(t, name);
            if exists|i: int| 0 <= i < filters.len() && (#[trigger] filters[i]).0 == name {
                let i = choose|i: int| 0 <= i < filters.len() && (#[trigger] filters[i]).0 == name;
                assert(t[i - 1].0 == name);
                let v = filter_of(t, name);
                let j = choose|j: int|
                    0 <= j < t.len() && (#[trigger] t[j]) == (name, v) && forall|k: int|
                        0 <= k < j ==> (#[trigger] t[k]).0 != name;
                assert(filters[j + 1] == (name, v));
                assert forall|k: int| 0 <= k < j + 1 implies (#[trigger] filters[k]).0 != name by {
                    if k > 0 {
                        assert(t[k - 1] == filters[k]);
                    }
                }
            } else {
                assert forall|i: int| 0 <= i < t.len() implies (#[trigger] t[i]).0 != name by {
                    assert(filters[i + 1] == t[i]);
                }
            }
        }
    }
}

/// An interface is strict exactly where the larger of its own value and that of
/// `all` is 1; a value that is not listed is 0.
pub proof fn strict_is_what_the_larger_value_says(
    host: HostView,
    interface: Seq<char>,
    all: u8,
    own: u8,
)
    requires
        first_filter(host.rp_filter, "all"@, all) || (all == 0 && forall|i: int|
            0 <= i < host.rp_filter.len() ==> (#[trigger] host.rp_filter[i]).0 != "all"@),
        first_filter(host.rp_filter, interface, own) || (own == 0 && forall|i: int|
            0 <= i < host.rp_filter.len() ==> (#[trigger] host.rp_filter[i]).0 != interface),
    ensures
        strict(host, interface) <==> (all == 1 && own <= 1) || (own == 1 && all <= 1),
{
    lemma_filter(host.rp_filter, "all"@);
    lemma_filter(host.rp_filter, interface);
    lemma_first_is_one(host.rp_filter, "all"@, all);
    lemma_first_is_one(host.rp_filter, interface, own);
}

proof fn lemma_first_is_one(filters: Seq<(Seq<char>, u8)>, name: Seq<char>, v: u8)
    ensures
        first_filter(filters, name, v) ==> filter_of(filters, name) == v,
{
    lemma_filter(filters, name);
    if first_filter(filters, name, v) {
        let i = choose|i: int|
            0 <= i < filters.len() && (#[trigger] filters[i]) == (name, v) && forall|k: int|
                0 <= k < i ==> (#[trigger] filters[k]).0 != name;
        assert(filters[i].0 == name);
        let u = filter_of(filters, name);
        let j = choose|j: int|
            0 <= j < filters.len() && (#[trigger] filters[j]) == (name, u) && forall|k: int|
                0 <= k < j ==> (#[trigger] filters[k]).0 != name;
        if j < i {
            assert(filters[j].0 != name);
        }
        if i < j {
            assert(filters[i].0 != name);
        }
    }
}

/// A cgroup that is listed is there, with slashes around it or without.
pub proof fn a_listed_cgroup_is_there(host: HostView, path: Seq<char>, i: int)
    requires
        0 <= i < host.cgroups.len(),
        path.len() > 0,
        path[0] != '/',
        path.last() != '/',
        host.cgroups[i] == path || host.cgroups[i] == seq!['/'] + path || host.cgroups[i] == path
            + seq!['/'],
    ensures
        has_cgroup(host, path),
{
    lemma_untrimmed(path, '/');
    let front = seq!['/'] + path;
    assert(front.skip(1) =~= path);
    assert(trim_start_char(front, '/') == trim_start_char(path, '/'));
    let back = path + seq!['/'];
    assert(back.drop_last() =~= path);
    assert(trim_start_char(back, '/') == back);
    assert(trim_end_char(back, '/') == trim_end_char(path, '/'));
    assert(trim_char(host.cgroups[i], '/') == path);
}

/// A cgroup that is not listed in any spelling is not there.
pub proof fn an_unlisted_cgroup_is_not_there(host: HostView, path: Seq<char>)
    requires
        forall|i: int|
            0 <= i < host.cgroups.len() ==> !crate::text::contains(#[trigger] host.cgroups[i], path),
    ensures
        !has_cgroup(host, path),
{
    if has_cgroup(host, path) {
        let i = choose|i: int|
            0 <= i < host.cgroups.len() && trim_char(#[trigger] host.cgroups[i], '/') == path;
        lemma_trimmed_inside(host.cgroups[i], '/');
    }
}

proof fn lemma_trimmed_inside(s: Seq<char>, c: char)
    ensures
        crate::text::contains(s, trim_char(s, c)),
{
    let t = trim_start_char(s, c);
    let u = trim_char(s, c);
    lemma_start_trimmed(s, c);
    lemma_end_trimmed(t, c);
    let d = s.len() - t.len();
    assert(s.subrange(d, d + u.len()) =~= u) by {
        assert forall|i: int| 0 <= i < u.len() implies s.subrange(d, d + u.len())[i] == #[trigger] u[i] by {
            assert(u[i] == t[i]);
            assert(t[i] == s[d + i]);
        }
    }
    assert(crate::text::has_at(s, u, d));
}

proof fn lemma_start_trimmed(s: Seq<char>, c: char)
    ensures
        ({
            let t = trim_start_char(s, c);
            t.len() <= s.len() && t == s.skip(s.len() - t.len())
        }),
    decreases s.len(),
{
    if s.len() > 0 && s[0] == c {
        lemma_start_trimmed(s.skip(1), c);
        let t = trim_start_char(s, c);
        assert(s.skip(1).skip(s.len() - 1 - t.len()) =~= s.skip(s.len() - t.len()));
    } else {
        assert(s.skip(0) =~= s);
    }
}

proof fn lemma_end_trimmed(s: Seq<char>, c: char)
    ensures
        ({
            let t = trim_end_char(s, c);
            t.len() <= s.len() && t == s.take(t.len() as int)
        }),
    decreases s.len(),
{
    if s.len() > 0 && s.last() == c {
        lemma_end_trimmed(s.drop_last(), c);
        let t = trim_end_char(s, c);
        assert(s.drop_last().take(t.len() as int) =~= s.take(t.len() as int));
    } else {
        assert(s.take(s.len() as int) =~= s);
    }
}

// ---------------------------------------------------------------------------
// What is refused, and what is said
// ---------------------------------------------------------------------------

/// Tor is used exactly where a rule or the default leads into it.
pub proof fn tor_is_used_where_something_goes_there(policy: PolicyView)
    ensures
        policy.uses_tor() <==> policy.default_path is Tor || policy.default_path is TorViaVpn || (
        exists|i: int|
            0 <= i < policy.rules.len() && ((#[trigger] policy.rules[i]).path is Tor
                || policy.rules[i].path is TorViaVpn)),
{
    let n = policy.rules.len() as int;
    assert(policy.routes()[n] == policy.default_path);
    assert forall|i: int| 0 <= i < n implies policy.routes()[i] == (#[trigger] policy.rules[i]).path by {
    }
    if policy.uses_tor() {
        let i = choose|i: int| 0 <= i < policy.routes().len() && (#[trigger] policy.routes()[i]).tor();
        if i < n {
            assert(policy.rules[i].path == policy.routes()[i]);
        }
    }
    if exists|i: int|
        0 <= i < n && ((#[trigger] policy.rules[i]).path is Tor || policy.rules[i].path
            is TorViaVpn) {
        let i = choose|i: int|
            0 <= i < n && ((#[trigger] policy.rules[i]).path is Tor || policy.rules[i].path
                is TorViaVpn);
        assert(policy.routes()[i].tor());
    }
}

/// A rule or a default that leads into a tunnel is refused where the tunnel is not
/// there, and where it would throw the answers away.
pub proof fn a_tunnel_has_to_be_there(
    plan: PlanView,
    policy: PolicyView,
    host: HostView,
    path: PathView,
    interface: Seq<char>,
)
    requires
        path == policy.default_path || exists|i: int|
            0 <= i < policy.rules.len() && (#[trigger] policy.rules[i]).path == path,
        path == (PathView::Vpn { interface }) || path == (PathView::TorViaVpn { interface }),
    ensures
        refusals(plan, policy, host).contains(
            RefusalView::NoSuchInterface { interface, path: path.label() },
        ) <==> !host.interfaces.contains(interface),
        refusals(plan, policy, host).contains(RefusalView::StrictReversePath { interface })
            <==> strict(host, interface),
{
    let n = policy.rules.len() as int;
    assert(policy.routes()[n] == policy.default_path);
    if path != policy.default_path {
        let i = choose|i: int| 0 <= i < n && (#[trigger] policy.rules[i]).path == path;
        assert(policy.routes()[i] == path);
    }
    let k = choose|k: int| 0 <= k < policy.routes().len() && policy.routes()[k] == path;
    assert(policy.routes()[k].tunnel() == Some(interface));
    every_refusal_has_its_cause(
        plan,
        policy,
        host,
        RefusalView::NoSuchInterface { interface, path: path.label() },
    );
    every_refusal_has_its_cause(plan, policy, host, RefusalView::StrictReversePath { interface });
}

/// Two rules for one sender are refused, however the sender is written: a unit and
/// the cgroup of that unit are one sender.
pub proof fn a_sender_is_claimed_once(
    plan: PlanView,
    policy: PolicyView,
    host: HostView,
    i: int,
    j: int,
    u: Seq<char>,
)
    requires
        0 <= i < j < policy.rules.len(),
        trim(policy.rules[j].selector.label()).len() > 0,
        u.len() > 0,
        !u.contains('/'),
        ({
            let a = policy.rules[i].selector;
            let b = policy.rules[j].selector;
            ||| a == b
            ||| a == SelectorView::Unit(u) && b == SelectorView::Cgroup("system.slice/"@ + u)
            ||| b == SelectorView::Unit(u) && a == SelectorView::Cgroup("system.slice/"@ + u)
        }),
    ensures
        refusals(plan, policy, host).contains(
            RefusalView::DuplicateSelector { selector: policy.rules[j].selector.label() },
        ),
{
    a_unit_is_its_cgroup(u);
    assert(policy.rules[i].selector.matching() == policy.rules[j].selector.matching());
    assert(claimed(policy.rules, j));
    every_refusal_has_its_cause(
        plan,
        policy,
        host,
        RefusalView::DuplicateSelector { selector: policy.rules[j].selector.label() },
    );
}

/// Rules for users that are not the same are not refused as one.
pub proof fn users_are_claimed_apart(
    plan: PlanView,
    policy: PolicyView,
    host: HostView,
    selector: Seq<char>,
)
    requires
        forall|i: int| 0 <= i < policy.rules.len() ==> (#[trigger] policy.rules[i]).selector is User,
        forall|i: int, j: int|
            0 <= i < j < policy.rules.len() ==> (#[trigger] policy.rules[i]).selector != (
            #[trigger] policy.rules[j]).selector,
    ensures
        !refusals(plan, policy, host).contains(RefusalView::DuplicateSelector { selector }),
{
    let r = RefusalView::DuplicateSelector { selector };
    every_refusal_has_its_cause(plan, policy, host, r);
    if refusals(plan, policy, host).contains(r) {
        let rules = policy.rules;
        let j = choose|j: int|
            0 <= j < rules.len() && (#[trigger] rules[j]).selector.label() == selector && claimed(
                rules,
                j,
            );
        let i = choose|i: int|
            0 <= i < j && (#[trigger] rules[i]).selector.matching() == rules[j].selector.matching();
        assert(rules[i].selector is User && rules[j].selector is User);
        a_user_is_asked_for_by_number(rules[i].selector->User_0, rules[j].selector->User_0);
    }
}

/// A selector that names nothing is refused, and so is an address that is none,
/// whether it is to be let in or to stay outside.
pub proof fn what_names_nothing_is_refused(
    plan: PlanView,
    policy: PolicyView,
    host: HostView,
    i: int,
    s: Seq<char>,
)
    ensures
        0 <= i < policy.rules.len() && trim(policy.rules[i].selector.label()).len() == 0
            ==> refusals(plan, policy, host).contains(
            RefusalView::EmptySelector { selector: policy.rules[i].selector.label() },
        ),
        refusals(plan, policy, host).contains(RefusalView::UnparseablePeer { peer: s }) <==> (
        host.admin_peers.contains(s) || host.tunnel_endpoints.contains(s)) && read_addr(s) is None,
{
    if 0 <= i < policy.rules.len() {
        every_refusal_has_its_cause(
            plan,
            policy,
            host,
            RefusalView::EmptySelector { selector: policy.rules[i].selector.label() },
        );
    }
    reveal(crate::preflight::is_addr);
    every_refusal_has_its_cause(plan, policy, host, RefusalView::UnparseablePeer { peer: s });
}

/// What cannot work without Tor is refused where Tor is not ready, and each thing
/// that is missing is named.
pub proof fn tor_has_to_be_ready(plan: PlanView, policy: PolicyView, host: HostView, i: int)
    requires
        0 <= i < policy.rules.len(),
        policy.rules[i].path is Tor || policy.rules[i].path is TorViaVpn,
    ensures
        refusals(plan, policy, host).contains(
            RefusalView::TorNotTransparent { missing: "TransPort"@ },
        ) <==> host.tor_trans_port is None,
        refusals(plan, policy, host).contains(
            RefusalView::TorNotTransparent { missing: "DNSPort"@ },
        ) <==> host.tor_dns_port is None,
        refusals(plan, policy, host).contains(RefusalView::TorUidUnknown) <==> host.tor_uid is None,
{
    tor_is_used_where_something_goes_there(policy);
    reveal_strlit("TransPort");
    reveal_strlit("DNSPort");
    assert("TransPort"@.len() != "DNSPort"@.len());
    every_refusal_has_its_cause(
        plan,
        policy,
        host,
        RefusalView::TorNotTransparent { missing: "TransPort"@ },
    );
    every_refusal_has_its_cause(
        plan,
        policy,
        host,
        RefusalView::TorNotTransparent { missing: "DNSPort"@ },
    );
    every_refusal_has_its_cause(plan, policy, host, RefusalView::TorUidUnknown);
}

/// Whoever uses Tor is told about names, and whoever puts Tor into a tunnel by
/// default is told which; nobody else is told anything.
pub proof fn tor_comes_with_its_notes(policy: PolicyView, host: HostView)
    ensures
        ({
            let notes = plan_for(policy, host).notes;
            &&& policy.uses_tor() <==> notes.len() > 0
            &&& policy.uses_tor() ==> notes[0].len() > 3 && notes[0].take(3) == "DNS"@
            &&& policy.default_path is TorViaVpn <==> notes.len() == 2
            &&& notes.len() <= 2
            &&& policy.default_path matches PathView::TorViaVpn { interface }
                ==> crate::text::contains(notes[1], interface)
        }),
{
    tor_is_used_where_something_goes_there(policy);
    reveal_strlit("DNS");
    reveal_strlit(
        "DNS is redirected to Tor's DNSPort as well as TCP. Routing TCP alone leaves every hostname the application looks up in plaintext, which defeats the point while looking like it worked.",
    );
    let notes = plan_for(policy, host).notes;
    if policy.uses_tor() {
        assert(notes[0].take(3) =~= "DNS"@);
    }
    if let PathView::TorViaVpn { interface } = policy.default_path {
        lemma_inside(
            "Tor's own traffic is routed through "@,
            interface,
            ", so the Tor guard sees the tunnel's address. Everything else about Tor is unchanged."@,
        );
    }
}

} // verus!
