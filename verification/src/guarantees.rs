//! What every plan guarantees, whatever the policy and the host.

use vstd::prelude::*;
use vstd::seq_lib::lemma_seq_concat_contains_all_elements;
use vstd::string::*;

use crate::apply::{
    a_record_reads_back, all_recordable, record_lines, record_of, recordable, AppliedView,
};
use crate::num::{dec, hex};
use crate::order::{lemma_push_contains, sorting_keeps_every_value};
use crate::policy::{
    daddr_text, default_mark, default_redirects, distinct, dns_line, endpoint_line, endpoint_lines,
    exclusions, leave_line, mark_chain, mark_for, mark_text, marking, masq_chain, masquerade_lines,
    most_tunnels, numbered, own_mark, peer_line, peer_lines, plan_for, redirect, rule_marks, rule_redirects,
    ruleset, saved_mark, setups, tcp_line, teardowns, tor_chain, tor_itself, tor_mark, tor_marking,
    tor_markings, tunnelled, HostView, LaneView, PathView, PlanView, PolicyView, RuleView, MARK_BASE, MARK_CHAIN, MASQ_CHAIN, NAT_CHAIN, TABLE,
};
use crate::preflight::{
    address_refusals, cgroup_refusals, claimed, excludes, has_cgroup, interface_refusals, is_addr,
    refusals, selector_refusals, strand_refusals, strict, strict_refusals, tor_refusals,
    RefusalView,
};
use crate::text::{contains, has_at, is_whitespace, lemma_trimmed_stays, starts_with, trim, unlines};

verus! {

// ---------------------------------------------------------------------------
// Paths and marks
// ---------------------------------------------------------------------------

proof fn lemma_same_tail(p: Seq<char>, a: Seq<char>, b: Seq<char>)
    requires
        p + a == p + b,
    ensures
        a == b,
{
    assert((p + a).skip(p.len() as int) =~= a);
    assert((p + b).skip(p.len() as int) =~= b);
}

/// Two paths have one label only where they are one path.
pub proof fn a_label_tells_paths_apart(p: PathView, q: PathView)
    ensures
        p.label() == q.label() <==> p == q,
{
    reveal_strlit("direct");
    reveal_strlit("vpn:");
    reveal_strlit("tor");
    reveal_strlit("tor-via-");
    if p.label() == q.label() {
        let l = p.label();
        let m = q.label();
        match (p, q) {
            (PathView::Vpn { interface: a }, PathView::Vpn { interface: b }) => {
                lemma_same_tail("vpn:"@, a, b);
            },
            (PathView::TorViaVpn { interface: a }, PathView::TorViaVpn { interface: b }) => {
                lemma_same_tail("tor-via-"@, a, b);
            },
            _ => {
                assert(p is Direct ==> l[0] == 'd' && l.len() == 6);
                assert(p is Vpn ==> l[0] == 'v');
                assert(p is Tor ==> l[0] == 't' && l.len() == 3);
                assert(p is TorViaVpn ==> l[0] == 't' && l.len() >= 8);
                assert(q is Direct ==> m[0] == 'd' && m.len() == 6);
                assert(q is Vpn ==> m[0] == 'v');
                assert(q is Tor ==> m[0] == 't' && m.len() == 3);
                assert(q is TorViaVpn ==> m[0] == 't' && m.len() >= 8);
            },
        }
    }
}

pub proof fn lemma_distinct(s: Seq<PathView>)
    ensures
        distinct(s).no_duplicates(),
        distinct(s).len() <= s.len(),
        forall|p: PathView| #[trigger] distinct(s).contains(p) <==> s.contains(p),
    decreases s.len(),
{
    if s.len() > 0 {
        let t = s.drop_last();
        lemma_distinct(t);
        assert(s =~= t.push(s.last()));
        assert forall|p: PathView| #[trigger] distinct(s).contains(p) <==> s.contains(p) by {
            lemma_push_contains(t, s.last(), p);
            lemma_push_contains(distinct(t), s.last(), p);
            assert(distinct(t).contains(p) <==> t.contains(p));
        }
    }
}

proof fn lemma_tunnelled(s: Seq<PathView>)
    requires
        s.no_duplicates(),
    ensures
        tunnelled(s).no_duplicates(),
        tunnelled(s).len() <= s.len(),
        forall|p: PathView| #[trigger]
            tunnelled(s).contains(p) <==> s.contains(p) && p.tunnel() is Some,
    decreases s.len(),
{
    if s.len() > 0 {
        let t = s.drop_last();
        lemma_tunnelled(t);
        assert(s =~= t.push(s.last()));
        assert forall|p: PathView| #[trigger] tunnelled(s).contains(p) <==> s.contains(p)
            && p.tunnel() is Some by {
            lemma_push_contains(t, s.last(), p);
            lemma_push_contains(tunnelled(t), s.last(), p);
            assert(tunnelled(t).contains(p) <==> t.contains(p) && p.tunnel() is Some);
        }
        assert(!t.contains(s.last())) by {
            if t.contains(s.last()) {
                let i = choose|i: int| 0 <= i < t.len() && t[i] == s.last();
                assert(s[i] == s[s.len() - 1]);
            }
        }
        assert(!tunnelled(t).contains(s.last()));
    }
}

/// A policy has no more tunnels than rules and one for the rest, so every
/// policy of fewer rules than there are marks can be compiled.
pub proof fn tunnels_are_no_more_than_rules(policy: PolicyView)
    ensures
        policy.tunnels().len() <= policy.rules.len() + 1,
        policy.rules.len() < most_tunnels() ==> policy.tunnels().len() <= most_tunnels(),
{
    lemma_distinct(policy.routes());
    lemma_tunnelled(policy.paths());
}

pub proof fn lemma_lanes(policy: PolicyView)
    requires
        policy.tunnels().len() <= most_tunnels(),
    ensures
        policy.lanes().no_duplicates(),
        policy.lanes().len() == policy.tunnels().len(),
        forall|l: LaneView| #[trigger]
            policy.lanes().contains(l) <==> numbered(policy.tunnels()).contains(l),
{
    broadcast use vstd::seq_lib::group_to_multiset_ensures;

    let n = numbered(policy.tunnels());
    let l = policy.lanes();
    sorting_keeps_every_value(n);
    assert(n.no_duplicates()) by {
        assert forall|i: int, j: int| 0 <= i < n.len() && 0 <= j < n.len() && i != j implies n[i]
            != n[j] by {
            assert(n[i].mark == MARK_BASE + i && n[j].mark == MARK_BASE + j);
        }
    }
    n.lemma_multiset_has_no_duplicates();
    assert forall|x: LaneView| l.to_multiset().contains(x) implies #[trigger] l.to_multiset().count(
        x,
    ) == 1 by {
        assert(n.to_multiset().contains(x));
    }
    l.lemma_multiset_has_no_duplicates_conv();
    assert forall|x: LaneView| #[trigger] l.contains(x) <==> n.contains(x) by {
        assert(l.contains(x) <==> l.to_multiset().count(x) > 0);
        assert(n.contains(x) <==> n.to_multiset().count(x) > 0);
    }
}

/// The lane of a tunnel, and no other lane, has its mark.
pub proof fn marks_are_one_to_one(policy: PolicyView, i: int, j: int)
    requires
        policy.tunnels().len() <= most_tunnels(),
        0 <= i < j < policy.lanes().len(),
    ensures
        policy.lanes()[i].path != policy.lanes()[j].path,
        policy.lanes()[i].path.label() != policy.lanes()[j].path.label(),
        policy.lanes()[i].mark != policy.lanes()[j].mark,
        policy.lanes()[i].table() != policy.lanes()[j].table(),
        policy.lanes()[i].priority() != policy.lanes()[j].priority(),
{
    lemma_lanes(policy);
    lemma_distinct(policy.routes());
    lemma_tunnelled(policy.paths());
    let n = numbered(policy.tunnels());
    let a = policy.lanes()[i];
    let b = policy.lanes()[j];
    assert(policy.lanes().contains(a) && policy.lanes().contains(b));
    assert(n.contains(a) && n.contains(b));
    let x = choose|x: int| 0 <= x < n.len() && n[x] == a;
    let y = choose|y: int| 0 <= y < n.len() && n[y] == b;
    assert(a != b);
    assert(x != y);
    assert(policy.tunnels()[x] != policy.tunnels()[y]);
    a_label_tells_paths_apart(a.path, b.path);
}

proof fn lemma_mark_for(marks: Seq<(Seq<char>, u32)>, label: Seq<char>)
    ensures
        match mark_for(marks, label) {
            Some(m) => exists|i: int|
                0 <= i < marks.len() && (#[trigger] marks[i]).0 == label && marks[i].1 == m,
            None => forall|i: int| 0 <= i < marks.len() ==> (#[trigger] marks[i]).0 != label,
        },
    decreases marks.len(),
{
    if marks.len() > 0 && marks[0].0 != label {
        let t = marks.skip(1);
        lemma_mark_for(t, label);
        match mark_for(t, label) {
            Some(m) => {
                let i = choose|i: int|
                    0 <= i < t.len() && (#[trigger] t[i]).0 == label && t[i].1 == m;
                assert(marks[i + 1] == t[i]);
            },
            None => {
                assert forall|i: int| 0 <= i < marks.len() implies (#[trigger] marks[i]).0
                    != label by {
                    if i > 0 {
                        assert(t[i - 1] == marks[i]);
                    }
                }
            },
        }
    }
}

/// Every path of a policy that needs a tunnel has a mark of its own, and no
/// other path has one: direct is the absence of a mark.
pub proof fn a_path_has_a_mark_exactly_where_it_needs_a_tunnel(policy: PolicyView, path: PathView)
    requires
        policy.tunnels().len() <= most_tunnels(),
        policy.routes().contains(path),
    ensures
        mark_for(policy.marks(), path.label()) is Some <==> path.tunnel() is Some,
        mark_for(policy.marks(), path.label()) matches Some(m) ==> policy.lanes().contains(
            LaneView { path, mark: m },
        ),
{
    lemma_lanes(policy);
    lemma_distinct(policy.routes());
    lemma_tunnelled(policy.paths());
    let marks = policy.marks();
    let lanes = policy.lanes();
    let n = numbered(policy.tunnels());
    lemma_mark_for(marks, path.label());
    assert(policy.paths().contains(path));
    if path.tunnel() is Some {
        assert(policy.tunnels().contains(path));
        let k = choose|k: int| 0 <= k < policy.tunnels().len() && policy.tunnels()[k] == path;
        assert(n[k].path == path);
        assert(n.contains(n[k]));
        assert(lanes.contains(n[k]));
        let i = choose|i: int| 0 <= i < lanes.len() && lanes[i] == n[k];
        assert(marks[i].0 == path.label());
    }
    if mark_for(marks, path.label()) is Some {
        let m = mark_for(marks, path.label())->0;
        let i = choose|i: int|
            0 <= i < marks.len() && (#[trigger] marks[i]).0 == path.label() && marks[i].1 == m;
        a_label_tells_paths_apart(lanes[i].path, path);
        assert(lanes[i] == (LaneView { path, mark: m }));
        assert(lanes.contains(lanes[i]));
        assert(n.contains(lanes[i]));
        let k = choose|k: int| 0 <= k < n.len() && n[k] == lanes[i];
        assert(policy.tunnels().contains(policy.tunnels()[k]));
    }
}

/// A policy that routes nothing into a tunnel marks nothing, reroutes nothing
/// and has nothing to take back but its table.
pub proof fn without_tunnels_nothing_is_rerouted(policy: PolicyView, host: HostView)
    requires
        forall|i: int|
            0 <= i < policy.routes().len() ==> (#[trigger] policy.routes()[i]).tunnel() is None,
    ensures
        plan_for(policy, host).marks.len() == 0,
        plan_for(policy, host).ip.len() == 0,
        plan_for(policy, host).revert == seq!["nft delete table inet "@ + TABLE@],
        forall|i: int|
            0 <= i < policy.rules.len() ==> own_mark(
                (#[trigger] policy.rules[i]).path,
                policy.marks(),
            ) is None,
        tor_mark(policy, host, policy.marks()).len() == 0,
        default_mark(policy, policy.marks()).len() == 0,
        saved_mark(policy.marks()).len() == 0,
        masq_chain(policy.lanes()).len() == 0,
{
    lemma_distinct(policy.routes());
    lemma_tunnelled(policy.paths());
    assert(policy.tunnels().len() == 0) by {
        if policy.tunnels().len() > 0 {
            let p = policy.tunnels()[0];
            assert(policy.tunnels().contains(p));
            assert(policy.paths().contains(p));
            assert(policy.routes().contains(p));
            let i = choose|i: int| 0 <= i < policy.routes().len() && policy.routes()[i] == p;
            assert(policy.routes()[i].tunnel() is None);
        }
    }
    let n = numbered(policy.tunnels());
    assert(policy.lanes().len() == 0) by {
        sorting_keeps_every_value(n);
    }
    lemma_no_tor_marks(policy.paths(), host, policy.marks());
    assert(teardowns(policy.lanes()) =~= Seq::<Seq<char>>::empty());
    assert(plan_for(policy, host).revert =~= seq!["nft delete table inet "@ + TABLE@]);
}

proof fn lemma_no_tor_marks(
    paths: Seq<PathView>,
    host: HostView,
    marks: Seq<(Seq<char>, u32)>,
)
    requires
        marks.len() == 0,
    ensures
        tor_markings(paths, host, marks).len() == 0,
    decreases paths.len(),
{
    if paths.len() > 0 {
        lemma_no_tor_marks(paths.drop_last(), host, marks);
    }
}

// ---------------------------------------------------------------------------
// Undoing
// ---------------------------------------------------------------------------

proof fn lemma_pair_count(lanes: Seq<LaneView>)
    ensures
        setups(lanes).len() == 2 * lanes.len(),
        teardowns(lanes).len() == 2 * lanes.len(),
    decreases lanes.len(),
{
    if lanes.len() > 0 {
        lemma_pair_count(lanes.drop_last());
    }
}

proof fn lemma_pairs(lanes: Seq<LaneView>, k: int)
    requires
        0 <= k < lanes.len(),
    ensures
        setups(lanes)[2 * k] == lanes[k].setup()[0],
        setups(lanes)[2 * k + 1] == lanes[k].setup()[1],
        teardowns(lanes)[2 * k] == lanes[k].teardown()[0],
        teardowns(lanes)[2 * k + 1] == lanes[k].teardown()[1],
    decreases lanes.len(),
{
    let t = lanes.drop_last();
    lemma_pair_count(t);
    if k < t.len() {
        lemma_pairs(t, k);
        assert(t[k] == lanes[k]);
    }
}

/// For everything that is done there is exactly one thing that takes it back,
/// and the table is deleted first.
pub proof fn every_step_has_its_undo(policy: PolicyView, host: HostView)
    ensures
        ({
            let plan = plan_for(policy, host);
            &&& plan.revert.len() == plan.ip.len() + 1
            &&& plan.revert[0] == "nft delete table inet "@ + TABLE@
            &&& plan.ip.len() == 2 * policy.lanes().len()
        }),
        forall|k: int|
            0 <= k < policy.lanes().len() ==> {
                let plan = plan_for(policy, host);
                let lane = #[trigger] policy.lanes()[k];
                &&& plan.ip[2 * k] == lane.setup()[0]
                &&& plan.ip[2 * k + 1] == lane.setup()[1]
                &&& plan.revert[2 * k + 1] == lane.teardown()[0]
                &&& plan.revert[2 * k + 2] == lane.teardown()[1]
            },
{
    let lanes = policy.lanes();
    let plan = plan_for(policy, host);
    lemma_pair_count(lanes);
    assert forall|k: int| 0 <= k < lanes.len() implies {
        let lane = #[trigger] lanes[k];
        &&& plan.ip[2 * k] == lane.setup()[0]
        &&& plan.ip[2 * k + 1] == lane.setup()[1]
        &&& plan.revert[2 * k + 1] == lane.teardown()[0]
        &&& plan.revert[2 * k + 2] == lane.teardown()[1]
    } by {
        lemma_pairs(lanes, k);
        assert(plan.revert[2 * k + 1] == teardowns(lanes)[2 * k]);
        assert(plan.revert[2 * k + 2] == teardowns(lanes)[2 * k + 1]);
    }
}

// ---------------------------------------------------------------------------
// Order is the safety
// ---------------------------------------------------------------------------

/// Where the exclusions of a chain begin: behind its name and its type.
pub open spec fn exclusions_at() -> int {
    2
}

/// Where the exclusion of an administrator's session stands in a chain.
pub open spec fn peer_at(k: int) -> int {
    exclusions_at() + 5 + k
}

/// Where the exclusion of a tunnel's endpoint stands in a chain.
pub open spec fn endpoint_at(host: HostView, k: int) -> int {
    exclusions_at() + 5 + host.admin_peers.len() + k
}

/// Where a chain begins to decide.
pub open spec fn decisions_at(host: HostView) -> int {
    exclusions_at() + exclusions(host).len()
}

/// In the chain that hands traffic to Tor, everything that is excluded comes
/// before everything that captures: a connection already decided about, the
/// machine itself, what is open already, every administrator's session, every
/// tunnel's endpoint, and Tor's own packets.
pub proof fn exclusions_come_before_redirects(policy: PolicyView, host: HostView)
    ensures
        ({
            let chain = tor_chain(policy, host);
            let from = decisions_at(host) + tor_itself(host).len();
            let acts = rule_redirects(policy.rules, host) + default_redirects(policy, host);
            &&& chain[4] == "    ct mark != 0x0 meta mark set ct mark return"@
            &&& chain[5] == "    oif lo return"@
            &&& chain[6]
                == "    ct state established,related return   # a connection that predates this policy"@
            &&& forall|k: int|
                0 <= k < host.admin_peers.len() ==> #[trigger] peer_at(k) < from && chain[peer_at(
                    k,
                )] == peer_line(host.admin_peers[k])
            &&& forall|k: int|
                0 <= k < host.tunnel_endpoints.len() ==> #[trigger] endpoint_at(host, k) < from
                    && chain[endpoint_at(host, k)] == endpoint_line(host.tunnel_endpoints[k])
            &&& host.tor_uid matches Some(uid) ==> chain[from - 1] == "    meta skuid "@
                + dec(uid as nat) + " return"@
            &&& chain.subrange(from, from + acts.len()) == acts
            &&& chain.len() == from + acts.len() + 1
        }),
{
    let chain = tor_chain(policy, host);
    let ex = exclusions(host);
    let own = tor_itself(host);
    let acts = rule_redirects(policy.rules, host) + default_redirects(policy, host);
    let from = decisions_at(host) + own.len();
    assert(chain.len() == 2 + ex.len() + own.len() + acts.len() + 1);
    assert(chain.subrange(2, 2 + ex.len() as int) =~= ex);
    assert(chain[4] == ex[2] && chain[5] == ex[3] && chain[6] == ex[4]);
    assert forall|k: int| 0 <= k < host.admin_peers.len() implies #[trigger] peer_at(k) < from
        && chain[peer_at(k)] == peer_line(host.admin_peers[k]) by {
        assert(chain[peer_at(k)] == ex[5 + k]);
        assert(ex[5 + k] == peer_lines(host.admin_peers)[k]);
    }
    assert forall|k: int| 0 <= k < host.tunnel_endpoints.len() implies #[trigger] endpoint_at(
        host,
        k,
    ) < from && chain[endpoint_at(host, k)] == endpoint_line(host.tunnel_endpoints[k]) by {
        assert(chain[endpoint_at(host, k)] == ex[5 + host.admin_peers.len() + k]);
        assert(ex[5 + host.admin_peers.len() + k] == endpoint_lines(host.tunnel_endpoints)[k]);
    }
    assert(host.tor_uid is Some ==> chain[from - 1] == own[1]);
    assert(chain.subrange(from, from + acts.len()) =~= acts);
}

/// In the chain that marks traffic for the tunnels, everything that is excluded
/// comes before everything that marks, the rules come before Tor's own mark, that
/// before the mark for everything else, and the decision is saved last.
pub proof fn exclusions_come_before_marks(
    policy: PolicyView,
    host: HostView,
    marks: Seq<(Seq<char>, u32)>,
)
    ensures
        ({
            let chain = mark_chain(policy, host, marks);
            let from = decisions_at(host);
            let acts = rule_marks(policy.rules, host, marks) + tor_mark(policy, host, marks)
                + default_mark(policy, marks) + saved_mark(marks);
            &&& chain[4] == "    ct mark != 0x0 meta mark set ct mark return"@
            &&& chain[5] == "    oif lo return"@
            &&& chain[6]
                == "    ct state established,related return   # a connection that predates this policy"@
            &&& forall|k: int|
                0 <= k < host.admin_peers.len() ==> #[trigger] peer_at(k) < from && chain[peer_at(
                    k,
                )] == peer_line(host.admin_peers[k])
            &&& forall|k: int|
                0 <= k < host.tunnel_endpoints.len() ==> #[trigger] endpoint_at(host, k) < from
                    && chain[endpoint_at(host, k)] == endpoint_line(host.tunnel_endpoints[k])
            &&& chain.subrange(from, from + acts.len()) == acts
            &&& chain.len() == from + acts.len() + 1
            &&& marks.len() > 0 ==> chain[chain.len() - 2]
                == "    meta mark != 0x0 ct mark set meta mark"@
        }),
{
    let chain = mark_chain(policy, host, marks);
    let ex = exclusions(host);
    let acts = rule_marks(policy.rules, host, marks) + tor_mark(policy, host, marks) + default_mark(
        policy,
        marks,
    ) + saved_mark(marks);
    let from = decisions_at(host);
    assert(chain.len() == 2 + ex.len() + acts.len() + 1);
    assert(chain.subrange(2, 2 + ex.len() as int) =~= ex);
    assert(chain[4] == ex[2] && chain[5] == ex[3] && chain[6] == ex[4]);
    assert forall|k: int| 0 <= k < host.admin_peers.len() implies #[trigger] peer_at(k) < from
        && chain[peer_at(k)] == peer_line(host.admin_peers[k]) by {
        assert(chain[peer_at(k)] == ex[5 + k]);
        assert(ex[5 + k] == peer_lines(host.admin_peers)[k]);
    }
    assert forall|k: int| 0 <= k < host.tunnel_endpoints.len() implies #[trigger] endpoint_at(
        host,
        k,
    ) < from && chain[endpoint_at(host, k)] == endpoint_line(host.tunnel_endpoints[k]) by {
        assert(chain[endpoint_at(host, k)] == ex[5 + host.admin_peers.len() + k]);
        assert(ex[5 + host.admin_peers.len() + k] == endpoint_lines(host.tunnel_endpoints)[k]);
    }
    assert(chain.subrange(from, from + acts.len()) =~= acts);
    if marks.len() > 0 {
        assert(acts[acts.len() - 1] == saved_mark(marks)[1]);
        assert(chain[chain.len() - 2] == acts[acts.len() - 1]);
    }
}

/// Where the lines of a rule begin among those of the rules.
pub open spec fn rule_at(rules: Seq<RuleView>, host: HostView, i: int) -> int {
    rule_redirects(rules.take(i), host).len() as int
}

/// Every rule is carried out in the chain that hands traffic to Tor, in its
/// place.
pub proof fn every_rule_is_carried_out(rules: Seq<RuleView>, host: HostView, i: int)
    requires
        0 <= i < rules.len(),
    ensures
        ({
            let all = rule_redirects(rules, host);
            let own = redirect(rules[i], host);
            let at = rule_at(rules, host, i);
            at + own.len() <= all.len() && all.subrange(at, at + own.len()) == own
        }),
    decreases rules.len(),
{
    let t = rules.drop_last();
    let before = rule_redirects(t, host);
    let all = rule_redirects(rules, host);
    let own = redirect(rules[i], host);
    let at = rule_at(rules, host, i);
    if i < t.len() {
        every_rule_is_carried_out(t, host, i);
        assert(t.take(i) =~= rules.take(i));
        assert(all.subrange(at, at + own.len()) =~= before.subrange(at, at + own.len()));
    } else {
        assert(rules.take(i) =~= t);
        assert(all.subrange(at, at + own.len()) =~= own);
    }
}

/// What a rule hands to Tor comes in a pair: the TCP of a sender, and behind it
/// the DNS of the same sender.
pub proof fn dns_goes_with_the_tcp_it_belongs_to(rules: Seq<RuleView>, host: HostView, i: int)
    requires
        0 <= i < rules.len(),
        rules[i].path.tor(),
    ensures
        rule_at(rules, host, i) + 1 < rule_redirects(rules, host).len(),
        rule_redirects(rules, host)[rule_at(rules, host, i)] == tcp_line(rules[i].selector, host),
        rule_redirects(rules, host)[rule_at(rules, host, i) + 1] == dns_line(
            rules[i].selector,
            host,
        ),
{
    every_rule_is_carried_out(rules, host, i);
    let all = rule_redirects(rules, host);
    let at = rule_at(rules, host, i);
    let own = redirect(rules[i], host);
    assert(all.subrange(at, at + own.len())[0] == all[at]);
    assert(all.subrange(at, at + own.len())[1] == all[at + 1]);
}

/// Applying a ruleset a second time replaces the table: it is created, deleted
/// and only then filled.
pub proof fn applying_again_replaces_the_table(policy: PolicyView, host: HostView)
    ensures
        ruleset(policy, host).len() > 4,
        ruleset(policy, host)[1] == "table inet "@ + TABLE@,
        ruleset(policy, host)[2] == "delete table inet "@ + TABLE@,
        ruleset(policy, host)[3] == "table inet "@ + TABLE@ + " {"@,
{
}

// ---------------------------------------------------------------------------
// Nobody is stranded
// ---------------------------------------------------------------------------

proof fn lemma_contains_at(s: Seq<char>, a: Seq<char>, x: Seq<char>, b: Seq<char>)
    requires
        s == a + x + b,
    ensures
        contains(s, x),
{
    assert(s.subrange(a.len() as int, (a.len() + x.len()) as int) =~= x);
    assert(has_at(s, x, a.len() as int));
}

proof fn lemma_unlines_holds(ls: Seq<Seq<char>>, i: int, x: Seq<char>)
    requires
        0 <= i < ls.len(),
        contains(ls[i], x),
    ensures
        contains(unlines(ls), x),
    decreases ls.len(),
{
    let t = ls.drop_last();
    let whole = unlines(ls);
    if i < t.len() {
        lemma_unlines_holds(t, i, x);
        let k = choose|k: int| #[trigger] has_at(unlines(t), x, k);
        assert(whole.subrange(k, k + x.len()) =~= unlines(t).subrange(k, k + x.len()));
        assert(has_at(whole, x, k));
    } else {
        let k = choose|k: int| #[trigger] has_at(ls[i], x, k);
        let at = unlines(t).len() + k;
        assert(whole.subrange(at, at + x.len()) =~= ls[i].subrange(k, k + x.len()));
        assert(has_at(whole, x, at));
    }
}

proof fn lemma_peer_line_excludes(peer: Seq<char>)
    ensures
        contains(peer_line(peer), daddr_text(peer) + " return"@),
{
    reveal_strlit(" return   # the session administering this host");
    reveal_strlit(" return");
    let line = peer_line(peer);
    let wanted = daddr_text(peer) + " return"@;
    let long = " return   # the session administering this host"@;
    assert(long =~= " return"@ + long.skip(7));
    assert(line =~= "    "@ + wanted + long.skip(7));
    lemma_contains_at(line, "    "@, wanted, long.skip(7));
}

/// A plan never captures a session it was told of: every administrator's
/// address that is one is excluded by the text of the ruleset itself.
#[verifier::spinoff_prover]
#[verifier::rlimit(60)]
pub proof fn a_plan_never_strands_its_administrator(policy: PolicyView, host: HostView, k: int)
    requires
        0 <= k < host.admin_peers.len(),
    ensures
        excludes(plan_for(policy, host).nft, host.admin_peers[k]),
{
    reveal(excludes);
    let peer = host.admin_peers[k];
    let chain = mark_chain(policy, host, policy.marks());
    let all = ruleset(policy, host);
    exclusions_come_before_marks(policy, host, policy.marks());
    let wanted = daddr_text(peer) + " return"@;
    assert(peer_at(k) < decisions_at(host));
    assert(chain[peer_at(k)] == peer_line(peer));
    let tor = if policy.uses_tor() {
        tor_chain(policy, host)
    } else {
        seq![]
    };
    let at = 4 + tor.len() + peer_at(k);
    assert(all[at] == chain[peer_at(k)]);
    lemma_peer_line_excludes(peer);
    lemma_unlines_holds(all, at, wanted);
}

/// So the check for stranded sessions finds none in a plan compiled for the
/// same host.
pub proof fn a_compiled_plan_strands_nobody(policy: PolicyView, host: HostView)
    ensures
        strand_refusals(host.admin_peers, plan_for(policy, host).nft).len() == 0,
{
    lemma_no_strand(policy, host, host.admin_peers.len() as int);
    assert(host.admin_peers.take(host.admin_peers.len() as int) =~= host.admin_peers);
}

proof fn lemma_no_strand(policy: PolicyView, host: HostView, n: int)
    requires
        0 <= n <= host.admin_peers.len(),
    ensures
        strand_refusals(host.admin_peers.take(n), plan_for(policy, host).nft).len() == 0,
    decreases n,
{
    if n > 0 {
        lemma_no_strand(policy, host, n - 1);
        assert(host.admin_peers.take(n).drop_last() =~= host.admin_peers.take(n - 1));
        a_plan_never_strands_its_administrator(policy, host, n - 1);
    }
}

/// A plan that was not compiled with a session in mind, and whose text does not
/// exclude it, is refused.
pub proof fn a_plan_that_would_strand_is_refused(
    plan: PlanView,
    policy: PolicyView,
    host: HostView,
    k: int,
)
    requires
        0 <= k < host.admin_peers.len(),
        is_addr(host.admin_peers[k]),
        !excludes(plan.nft, host.admin_peers[k]),
    ensures
        refusals(plan, policy, host).contains(
            RefusalView::WouldStrandAdmin { peer: host.admin_peers[k] },
        ),
{
    let peers = host.admin_peers;
    let r = RefusalView::WouldStrandAdmin { peer: peers[k] };
    lemma_strand_found(peers, plan.nft, k);
    let s = strand_refusals(peers, plan.nft);
    let i = choose|i: int| 0 <= i < s.len() && s[i] == r;
    let all = refusals(plan, policy, host);
    assert(all[i] == s[i]);
}

proof fn lemma_strand_found(peers: Seq<Seq<char>>, nft: Seq<char>, k: int)
    requires
        0 <= k < peers.len(),
        is_addr(peers[k]),
        !excludes(nft, peers[k]),
    ensures
        strand_refusals(peers, nft).contains(RefusalView::WouldStrandAdmin { peer: peers[k] }),
    decreases peers.len(),
{
    let t = peers.drop_last();
    let before = strand_refusals(t, nft);
    let all = strand_refusals(peers, nft);
    let r = RefusalView::WouldStrandAdmin { peer: peers[k] };
    if k < t.len() {
        assert(t[k] == peers[k]);
        lemma_strand_found(t, nft, k);
        assert(all == before || all == before.push(
            RefusalView::WouldStrandAdmin { peer: peers.last() },
        ));
        lemma_push_contains(before, RefusalView::WouldStrandAdmin { peer: peers.last() }, r);
    } else {
        assert(all == before.push(r));
        lemma_push_contains(before, r, r);
    }
}

// ---------------------------------------------------------------------------
// What an empty preflight means
// ---------------------------------------------------------------------------

/// Whether a rule's sender is one that could exist, and no earlier rule's.
pub open spec fn sound_sender(rule: RuleView, rules: Seq<RuleView>, i: int) -> bool {
    trim(rule.selector.label()).len() > 0 && !claimed(rules, i)
}

/// Whether the cgroup that a rule names is there, as far as is known.
pub open spec fn sound_cgroup(rule: RuleView, host: HostView) -> bool {
    host.cgroups.len() > 0 ==> (rule.selector.cgroup() matches Some(path) ==> has_cgroup(
        host,
        path,
    ))
}

/// Whether the tunnel that a path needs exists.
pub open spec fn has_tunnel(path: PathView, host: HostView) -> bool {
    path.tunnel() matches Some(name) ==> host.interfaces.contains(name)
}

/// Whether the tunnel that a path needs lets its replies in.
pub open spec fn lets_replies_in(path: PathView, host: HostView) -> bool {
    path.tunnel() matches Some(name) ==> !strict(host, name)
}

/// Whether a session is not captured, as far as it is told by an address.
pub open spec fn not_captured(peer: Seq<char>, nft: Seq<char>) -> bool {
    is_addr(peer) ==> excludes(nft, peer)
}

proof fn lemma_selectors_clear(rules: Seq<RuleView>, n: nat)
    requires
        n <= rules.len(),
    ensures
        selector_refusals(rules, n).len() == 0 <==> forall|i: int|
            0 <= i < n ==> sound_sender(#[trigger] rules[i], rules, i),
    decreases n,
{
    if n > 0 {
        lemma_selectors_clear(rules, (n - 1) as nat);
        assert(rules[n - 1] == rules[n - 1]);
        if selector_refusals(rules, n).len() == 0 {
            assert forall|i: int| 0 <= i < n implies sound_sender(#[trigger] rules[i], rules, i) by {
                if i == n - 1 {
                    assert(trim(rules[n - 1].selector.label()).len() > 0);
                    assert(!claimed(rules, n - 1));
                }
            }
        } else if forall|i: int| 0 <= i < n ==> sound_sender(#[trigger] rules[i], rules, i) {
            assert(sound_sender(rules[n - 1], rules, n - 1));
        }
    }
}

proof fn lemma_cgroups_clear(rules: Seq<RuleView>, host: HostView)
    ensures
        cgroup_refusals(rules, host).len() == 0 <==> forall|i: int|
            0 <= i < rules.len() ==> sound_cgroup(#[trigger] rules[i], host),
    decreases rules.len(),
{
    if rules.len() > 0 {
        let t = rules.drop_last();
        lemma_cgroups_clear(t, host);
        assert(rules[rules.len() - 1] == rules.last());
        if cgroup_refusals(rules, host).len() == 0 {
            assert(cgroup_refusals(t, host).len() == 0);
            assert forall|i: int| 0 <= i < rules.len() implies sound_cgroup(
                #[trigger] rules[i],
                host,
            ) by {
                if i < t.len() {
                    assert(t[i] == rules[i]);
                }
            }
        } else if forall|i: int| 0 <= i < rules.len() ==> sound_cgroup(#[trigger] rules[i], host) {
            assert(sound_cgroup(rules[rules.len() - 1], host));
            assert forall|i: int| 0 <= i < t.len() implies sound_cgroup(#[trigger] t[i], host) by {
                assert(t[i] == rules[i]);
            }
        }
    }
}

proof fn lemma_interfaces_clear(routes: Seq<PathView>, host: HostView)
    ensures
        interface_refusals(routes, host).len() == 0 <==> forall|i: int|
            0 <= i < routes.len() ==> has_tunnel(#[trigger] routes[i], host),
    decreases routes.len(),
{
    if routes.len() > 0 {
        let t = routes.drop_last();
        lemma_interfaces_clear(t, host);
        assert(routes[routes.len() - 1] == routes.last());
        if interface_refusals(routes, host).len() == 0 {
            assert(interface_refusals(t, host).len() == 0);
            assert forall|i: int| 0 <= i < routes.len() implies has_tunnel(
                #[trigger] routes[i],
                host,
            ) by {
                if i < t.len() {
                    assert(t[i] == routes[i]);
                }
            }
        } else if forall|i: int| 0 <= i < routes.len() ==> has_tunnel(#[trigger] routes[i], host) {
            assert(has_tunnel(routes[routes.len() - 1], host));
            assert forall|i: int| 0 <= i < t.len() implies has_tunnel(#[trigger] t[i], host) by {
                assert(t[i] == routes[i]);
            }
        }
    }
}

proof fn lemma_filters_clear(routes: Seq<PathView>, host: HostView)
    ensures
        strict_refusals(routes, host).len() == 0 <==> forall|i: int|
            0 <= i < routes.len() ==> lets_replies_in(#[trigger] routes[i], host),
    decreases routes.len(),
{
    if routes.len() > 0 {
        let t = routes.drop_last();
        lemma_filters_clear(t, host);
        assert(routes[routes.len() - 1] == routes.last());
        if strict_refusals(routes, host).len() == 0 {
            assert(strict_refusals(t, host).len() == 0);
            assert forall|i: int| 0 <= i < routes.len() implies lets_replies_in(
                #[trigger] routes[i],
                host,
            ) by {
                if i < t.len() {
                    assert(t[i] == routes[i]);
                }
            }
        } else if forall|i: int|
            0 <= i < routes.len() ==> lets_replies_in(#[trigger] routes[i], host) {
            assert(lets_replies_in(routes[routes.len() - 1], host));
            assert forall|i: int| 0 <= i < t.len() implies lets_replies_in(
                #[trigger] t[i],
                host,
            ) by {
                assert(t[i] == routes[i]);
            }
        }
    }
}

proof fn lemma_addresses_clear(addrs: Seq<Seq<char>>)
    ensures
        address_refusals(addrs).len() == 0 <==> forall|i: int|
            0 <= i < addrs.len() ==> is_addr(#[trigger] addrs[i]),
    decreases addrs.len(),
{
    if addrs.len() > 0 {
        let t = addrs.drop_last();
        lemma_addresses_clear(t);
        assert(addrs[addrs.len() - 1] == addrs.last());
        if address_refusals(addrs).len() == 0 {
            assert(address_refusals(t).len() == 0);
            assert forall|i: int| 0 <= i < addrs.len() implies is_addr(#[trigger] addrs[i]) by {
                if i < t.len() {
                    assert(t[i] == addrs[i]);
                }
            }
        } else if forall|i: int| 0 <= i < addrs.len() ==> is_addr(#[trigger] addrs[i]) {
            assert(is_addr(addrs[addrs.len() - 1]));
            assert forall|i: int| 0 <= i < t.len() implies is_addr(#[trigger] t[i]) by {
                assert(t[i] == addrs[i]);
            }
        }
    }
}

proof fn lemma_strand_clear(peers: Seq<Seq<char>>, nft: Seq<char>)
    ensures
        strand_refusals(peers, nft).len() == 0 <==> forall|i: int|
            0 <= i < peers.len() ==> not_captured(#[trigger] peers[i], nft),
    decreases peers.len(),
{
    if peers.len() > 0 {
        let t = peers.drop_last();
        lemma_strand_clear(t, nft);
        assert(peers[peers.len() - 1] == peers.last());
        if strand_refusals(peers, nft).len() == 0 {
            assert(strand_refusals(t, nft).len() == 0);
            assert forall|i: int| 0 <= i < peers.len() implies not_captured(
                #[trigger] peers[i],
                nft,
            ) by {
                if i < t.len() {
                    assert(t[i] == peers[i]);
                }
            }
        } else if forall|i: int|
            0 <= i < peers.len() ==> not_captured(#[trigger] peers[i], nft) {
            assert(not_captured(peers[peers.len() - 1], nft));
            assert forall|i: int| 0 <= i < t.len() implies not_captured(#[trigger] t[i], nft) by {
                assert(t[i] == peers[i]);
            }
        }
    }
}

/// Whether a plan can be applied: every sender is one that could exist and is
/// claimed once, every cgroup named is there, every tunnel exists and lets its
/// replies in, Tor can take what is handed to it, and every address to protect is
/// an address that the ruleset protects.
pub open spec fn can_be_applied(plan: PlanView, policy: PolicyView, host: HostView) -> bool {
    &&& forall|i: int|
        0 <= i < policy.rules.len() ==> sound_sender(#[trigger] policy.rules[i], policy.rules, i)
            && sound_cgroup(policy.rules[i], host)
    &&& forall|i: int|
        0 <= i < policy.routes().len() ==> has_tunnel(#[trigger] policy.routes()[i], host)
            && lets_replies_in(policy.routes()[i], host)
    &&& policy.uses_tor() ==> host.tor_trans_port is Some && host.tor_dns_port is Some
        && host.tor_uid is Some
    &&& forall|i: int|
        0 <= i < host.admin_peers.len() ==> is_addr(#[trigger] host.admin_peers[i]) && excludes(
            plan.nft,
            host.admin_peers[i],
        )
    &&& forall|i: int|
        0 <= i < host.tunnel_endpoints.len() ==> is_addr(#[trigger] host.tunnel_endpoints[i])
}

/// A plan is refused exactly where it cannot be applied.
pub proof fn a_plan_without_refusals_can_be_applied(
    plan: PlanView,
    policy: PolicyView,
    host: HostView,
)
    ensures
        refusals(plan, policy, host).len() == 0 <==> can_be_applied(plan, policy, host),
{
    let both = host.admin_peers + host.tunnel_endpoints;
    lemma_selectors_clear(policy.rules, policy.rules.len());
    lemma_cgroups_clear(policy.rules, host);
    lemma_interfaces_clear(policy.routes(), host);
    lemma_filters_clear(policy.routes(), host);
    lemma_addresses_clear(both);
    lemma_strand_clear(host.admin_peers, plan.nft);
    let a = strand_refusals(host.admin_peers, plan.nft);
    let b = selector_refusals(policy.rules, policy.rules.len());
    let c = cgroup_refusals(policy.rules, host);
    let d = interface_refusals(policy.routes(), host);
    let e = tor_refusals(policy, host);
    let f = strict_refusals(policy.routes(), host);
    let g = address_refusals(both);
    assert(refusals(plan, policy, host).len() == a.len() + b.len() + c.len() + d.len() + e.len()
        + f.len() + g.len());
    assert(e.len() == 0 <==> (policy.uses_tor() ==> host.tor_trans_port is Some
        && host.tor_dns_port is Some && host.tor_uid is Some));
    if refusals(plan, policy, host).len() == 0 {
        assert forall|i: int| 0 <= i < host.admin_peers.len() implies is_addr(
            #[trigger] host.admin_peers[i],
        ) && excludes(plan.nft, host.admin_peers[i]) by {
            assert(both[i] == host.admin_peers[i]);
            assert(not_captured(host.admin_peers[i], plan.nft));
        }
        assert forall|i: int| 0 <= i < host.tunnel_endpoints.len() implies is_addr(
            #[trigger] host.tunnel_endpoints[i],
        ) by {
            assert(both[host.admin_peers.len() + i] == host.tunnel_endpoints[i]);
        }
    }
    if can_be_applied(plan, policy, host) {
        assert forall|i: int| 0 <= i < both.len() implies is_addr(#[trigger] both[i]) by {
            if i < host.admin_peers.len() {
                assert(both[i] == host.admin_peers[i]);
            } else {
                assert(both[i] == host.tunnel_endpoints[i - host.admin_peers.len()]);
            }
        }
    }
}

/// Whether a refusal is called for.
pub open spec fn called_for(
    r: RefusalView,
    plan: PlanView,
    policy: PolicyView,
    host: HostView,
) -> bool {
    match r {
        RefusalView::WouldStrandAdmin { peer } => host.admin_peers.contains(peer) && is_addr(peer)
            && !excludes(plan.nft, peer),
        RefusalView::EmptySelector { selector } => trim(selector).len() == 0 && exists|i: int|
            0 <= i < policy.rules.len() && (#[trigger] policy.rules[i]).selector.label()
                == selector,
        RefusalView::DuplicateSelector { selector } => trim(selector).len() > 0 && exists|i: int|
            0 <= i < policy.rules.len() && (#[trigger] policy.rules[i]).selector.label()
                == selector && claimed(policy.rules, i),
        RefusalView::NoSuchCgroup { path } => host.cgroups.len() > 0 && !has_cgroup(host, path)
            && exists|i: int|
            0 <= i < policy.rules.len() && (#[trigger] policy.rules[i]).selector.cgroup() == Some(
                path,
            ),
        RefusalView::NoSuchInterface { interface, path } => !host.interfaces.contains(interface)
            && exists|i: int|
            0 <= i < policy.routes().len() && (#[trigger] policy.routes()[i]).tunnel() == Some(
                interface,
            ) && policy.routes()[i].label() == path,
        RefusalView::TorNotTransparent { missing } => policy.uses_tor() && ((missing == "TransPort"@
            && host.tor_trans_port is None) || (missing == "DNSPort"@ && host.tor_dns_port is None)),
        RefusalView::TorUidUnknown => policy.uses_tor() && host.tor_uid is None,
        RefusalView::StrictReversePath { interface } => strict(host, interface) && exists|i: int|
            0 <= i < policy.routes().len() && (#[trigger] policy.routes()[i]).tunnel() == Some(
                interface,
            ),
        RefusalView::UnparseablePeer { peer } => !is_addr(peer) && (host.admin_peers.contains(peer)
            || host.tunnel_endpoints.contains(peer)),
    }
}

proof fn lemma_strands(peers: Seq<Seq<char>>, nft: Seq<char>, r: RefusalView)
    ensures
        strand_refusals(peers, nft).contains(r) <==> (r matches RefusalView::WouldStrandAdmin {
            peer,
        } && peers.contains(peer) && is_addr(peer) && !excludes(nft, peer)),
    decreases peers.len(),
{
    if peers.len() > 0 {
        let t = peers.drop_last();
        let last = RefusalView::WouldStrandAdmin { peer: peers.last() };
        lemma_strands(t, nft, r);
        lemma_push_contains(strand_refusals(t, nft), last, r);
        if let RefusalView::WouldStrandAdmin { peer } = r {
            lemma_push_contains(t, peers.last(), peer);
            assert(t.push(peers.last()) =~= peers);
        }
    }
}

proof fn lemma_addresses(addrs: Seq<Seq<char>>, r: RefusalView)
    ensures
        address_refusals(addrs).contains(r) <==> (r matches RefusalView::UnparseablePeer { peer }
            && addrs.contains(peer) && !is_addr(peer)),
    decreases addrs.len(),
{
    if addrs.len() > 0 {
        let t = addrs.drop_last();
        let last = RefusalView::UnparseablePeer { peer: addrs.last() };
        lemma_addresses(t, r);
        lemma_push_contains(address_refusals(t), last, r);
        if let RefusalView::UnparseablePeer { peer } = r {
            lemma_push_contains(t, addrs.last(), peer);
            assert(t.push(addrs.last()) =~= addrs);
        }
    }
}

proof fn lemma_selectors(rules: Seq<RuleView>, n: nat, r: RefusalView)
    requires
        n <= rules.len(),
    ensures
        selector_refusals(rules, n).contains(r) <==> match r {
            RefusalView::EmptySelector { selector } => trim(selector).len() == 0 && exists|i: int|
                0 <= i < n && (#[trigger] rules[i]).selector.label() == selector,
            RefusalView::DuplicateSelector { selector } => trim(selector).len() > 0
                && exists|i: int|
                0 <= i < n && (#[trigger] rules[i]).selector.label() == selector && claimed(
                    rules,
                    i,
                ),
            _ => false,
        },
    decreases n,
{
    if n > 0 {
        let m = (n - 1) as nat;
        let label = rules[n - 1].selector.label();
        let before = selector_refusals(rules, m);
        lemma_selectors(rules, m, r);
        lemma_push_contains(before, RefusalView::EmptySelector { selector: label }, r);
        lemma_push_contains(before, RefusalView::DuplicateSelector { selector: label }, r);
    }
}

proof fn lemma_cgroups(rules: Seq<RuleView>, host: HostView, r: RefusalView)
    ensures
        cgroup_refusals(rules, host).contains(r) <==> (r matches RefusalView::NoSuchCgroup { path }
            && host.cgroups.len() > 0 && !has_cgroup(host, path) && exists|i: int|
            0 <= i < rules.len() && (#[trigger] rules[i]).selector.cgroup() == Some(path)),
    decreases rules.len(),
{
    if rules.len() > 0 {
        let t = rules.drop_last();
        lemma_cgroups(t, host, r);
        assert(rules[rules.len() - 1] == rules.last());
        assert(forall|i: int| 0 <= i < t.len() ==> #[trigger] t[i] == rules[i]);
        assert(forall|i: int| 0 <= i < t.len() ==> t[i] == #[trigger] rules[i]);
        if let Some(path) = rules.last().selector.cgroup() {
            lemma_push_contains(cgroup_refusals(t, host), RefusalView::NoSuchCgroup { path }, r);
        }
    }
}

proof fn lemma_interfaces(routes: Seq<PathView>, host: HostView, r: RefusalView)
    ensures
        interface_refusals(routes, host).contains(r) <==> (r matches RefusalView::NoSuchInterface {
            interface,
            path,
        } && !host.interfaces.contains(interface) && exists|i: int|
            0 <= i < routes.len() && (#[trigger] routes[i]).tunnel() == Some(interface)
                && routes[i].label() == path),
    decreases routes.len(),
{
    if routes.len() > 0 {
        let t = routes.drop_last();
        lemma_interfaces(t, host, r);
        assert(routes[routes.len() - 1] == routes.last());
        assert(forall|i: int| 0 <= i < t.len() ==> #[trigger] t[i] == routes[i]);
        assert(forall|i: int| 0 <= i < t.len() ==> t[i] == #[trigger] routes[i]);
        if let Some(interface) = routes.last().tunnel() {
            lemma_push_contains(
                interface_refusals(t, host),
                RefusalView::NoSuchInterface { interface, path: routes.last().label() },
                r,
            );
        }
    }
}

proof fn lemma_filters(routes: Seq<PathView>, host: HostView, r: RefusalView)
    ensures
        strict_refusals(routes, host).contains(r) <==> (r matches RefusalView::StrictReversePath {
            interface,
        } && strict(host, interface) && exists|i: int|
            0 <= i < routes.len() && (#[trigger] routes[i]).tunnel() == Some(interface)),
    decreases routes.len(),
{
    if routes.len() > 0 {
        let t = routes.drop_last();
        lemma_filters(t, host, r);
        assert(routes[routes.len() - 1] == routes.last());
        assert(forall|i: int| 0 <= i < t.len() ==> #[trigger] t[i] == routes[i]);
        assert(forall|i: int| 0 <= i < t.len() ==> t[i] == #[trigger] routes[i]);
        if let Some(interface) = routes.last().tunnel() {
            let last = RefusalView::StrictReversePath { interface };
            lemma_push_contains(strict_refusals(t, host), last, r);
        }
    }
}

proof fn lemma_tors(policy: PolicyView, host: HostView, r: RefusalView)
    ensures
        tor_refusals(policy, host).contains(r) <==> policy.uses_tor() && match r {
            RefusalView::TorNotTransparent { missing } => (missing == "TransPort"@
                && host.tor_trans_port is None) || (missing == "DNSPort"@
                && host.tor_dns_port is None),
            RefusalView::TorUidUnknown => host.tor_uid is None,
            _ => false,
        },
{
    let trans = RefusalView::TorNotTransparent { missing: "TransPort"@ };
    let dns = RefusalView::TorNotTransparent { missing: "DNSPort"@ };
    let a = if host.tor_trans_port is None {
        seq![trans]
    } else {
        seq![]
    };
    let b = if host.tor_dns_port is None {
        seq![dns]
    } else {
        seq![]
    };
    let c = if host.tor_uid is None {
        seq![RefusalView::TorUidUnknown]
    } else {
        seq![]
    };
    assert(a.contains(r) <==> host.tor_trans_port is None && r == trans) by {
        assert(host.tor_trans_port is None ==> a[0] == trans);
    }
    assert(b.contains(r) <==> host.tor_dns_port is None && r == dns) by {
        assert(host.tor_dns_port is None ==> b[0] == dns);
    }
    assert(c.contains(r) <==> host.tor_uid is None && r is TorUidUnknown) by {
        assert(host.tor_uid is None ==> c[0] is TorUidUnknown);
    }
    lemma_seq_concat_contains_all_elements(a, b, r);
    lemma_seq_concat_contains_all_elements(a + b, c, r);
    if policy.uses_tor() {
        assert(tor_refusals(policy, host) == a + b + c);
    }
}

/// A refusal is given exactly where it is called for, each with its own cause:
/// nothing that is wrong goes unsaid, and nothing else is complained about.
pub proof fn every_refusal_has_its_cause(
    plan: PlanView,
    policy: PolicyView,
    host: HostView,
    r: RefusalView,
)
    ensures
        refusals(plan, policy, host).contains(r) <==> called_for(r, plan, policy, host),
{
    let both = host.admin_peers + host.tunnel_endpoints;
    lemma_strands(host.admin_peers, plan.nft, r);
    lemma_selectors(policy.rules, policy.rules.len(), r);
    lemma_cgroups(policy.rules, host, r);
    lemma_interfaces(policy.routes(), host, r);
    lemma_tors(policy, host, r);
    lemma_filters(policy.routes(), host, r);
    lemma_addresses(both, r);
    if let RefusalView::UnparseablePeer { peer } = r {
        lemma_seq_concat_contains_all_elements(host.admin_peers, host.tunnel_endpoints, peer);
    }
    let a = strand_refusals(host.admin_peers, plan.nft);
    let b = selector_refusals(policy.rules, policy.rules.len());
    let c = cgroup_refusals(policy.rules, host);
    let d = interface_refusals(policy.routes(), host);
    let e = tor_refusals(policy, host);
    let f = strict_refusals(policy.routes(), host);
    let g = address_refusals(both);
    lemma_seq_concat_contains_all_elements(a, b, r);
    lemma_seq_concat_contains_all_elements(a + b, c, r);
    lemma_seq_concat_contains_all_elements(a + b + c, d, r);
    lemma_seq_concat_contains_all_elements(a + b + c + d, e, r);
    lemma_seq_concat_contains_all_elements(a + b + c + d + e, f, r);
    lemma_seq_concat_contains_all_elements(a + b + c + d + e + f, g, r);
    assert(refusals(plan, policy, host) =~= a + b + c + d + e + f + g);
}

/// What comes first is the worst: a session that would be captured.
pub proof fn the_worst_comes_first(plan: PlanView, policy: PolicyView, host: HostView, k: int)
    requires
        0 <= k < host.admin_peers.len(),
        is_addr(host.admin_peers[k]),
        !excludes(plan.nft, host.admin_peers[k]),
    ensures
        refusals(plan, policy, host).len() > 0,
        refusals(plan, policy, host)[0] is WouldStrandAdmin,
{
    let s = strand_refusals(host.admin_peers, plan.nft);
    lemma_strand_found(host.admin_peers, plan.nft, k);
    lemma_only_stranded(host.admin_peers, plan.nft);
    assert(s.len() > 0);
    assert(refusals(plan, policy, host)[0] == s[0]);
}

proof fn lemma_only_stranded(peers: Seq<Seq<char>>, nft: Seq<char>)
    ensures
        forall|i: int|
            0 <= i < strand_refusals(peers, nft).len() ==> (#[trigger] strand_refusals(
                peers,
                nft,
            )[i]) is WouldStrandAdmin,
    decreases peers.len(),
{
    if peers.len() > 0 {
        lemma_only_stranded(peers.drop_last(), nft);
    }
}

/// Loose on `all` is loose on every interface, whatever its own value; and
/// where nothing is filtered, nothing is strict.
pub proof fn loose_on_all_beats_strict_on_the_interface(host: HostView, interface: Seq<char>)
    ensures
        crate::preflight::filter_of(host.rp_filter, "all"@) >= 2 ==> !strict(host, interface),
        host.rp_filter.len() == 0 ==> !strict(host, interface),
{
}

// ---------------------------------------------------------------------------
// Chain names
// ---------------------------------------------------------------------------

/// Whether a line opens a chain.
pub open spec fn opens_chain(line: Seq<char>) -> bool {
    starts_with(line, "  chain "@)
}

/// Every chain is named with the prefix that keeps it clear of the keywords of
/// nftables.
pub proof fn every_chain_name_is_prefixed()
    ensures
        starts_with(NAT_CHAIN@, "tl_"@),
        starts_with(MARK_CHAIN@, "tl_"@),
        starts_with(MASQ_CHAIN@, "tl_"@),
{
    reveal_strlit("tl_");
    reveal_strlit("tl_via_tor");
    reveal_strlit("tl_routing");
    reveal_strlit("tl_masquerade");
    assert(NAT_CHAIN@.subrange(0, 3) =~= "tl_"@);
    assert(MARK_CHAIN@.subrange(0, 3) =~= "tl_"@);
    assert(MASQ_CHAIN@.subrange(0, 3) =~= "tl_"@);
}

/// Whether a line is seen at a glance to open no chain.
spec fn plain(line: Seq<char>) -> bool {
    line.len() <= 2 || line[2] != 'c'
}

spec fn all_plain(ls: Seq<Seq<char>>) -> bool {
    forall|i: int| 0 <= i < ls.len() ==> plain(#[trigger] ls[i])
}

proof fn lemma_plain_parts(a: Seq<Seq<char>>, b: Seq<Seq<char>>)
    requires
        all_plain(a),
        all_plain(b),
    ensures
        all_plain(a + b),
{
}

proof fn lemma_exclusions_plain(host: HostView)
    ensures
        all_plain(exclusions(host)),
{
    reveal_strlit("    # Exclusions first. Order is the safety.");
    reveal_strlit("    # A connection this policy already decided about keeps that decision.");
    reveal_strlit("    ct mark != 0x0 meta mark set ct mark return");
    reveal_strlit("    oif lo return");
    reveal_strlit(
        "    ct state established,related return   # a connection that predates this policy",
    );
    reveal_strlit("    ");
    let ex = exclusions(host);
    let n = host.admin_peers.len();
    assert forall|i: int| 0 <= i < ex.len() implies plain(#[trigger] ex[i]) by {
        if 5 <= i < 5 + n {
            assert(ex[i] == peer_line(host.admin_peers[i - 5]));
            assert(ex[i][2] == ' ');
        } else if i >= 5 + n {
            assert(ex[i] == endpoint_line(host.tunnel_endpoints[i - 5 - n]));
            assert(ex[i][2] == ' ');
        }
    }
}

proof fn lemma_redirects_plain(rules: Seq<RuleView>, host: HostView)
    ensures
        all_plain(rule_redirects(rules, host)),
    decreases rules.len(),
{
    if rules.len() > 0 {
        lemma_redirects_plain(rules.drop_last(), host);
        reveal_strlit("    ");
        let s = rules.last().selector;
        assert(tcp_line(s, host)[2] == ' ');
        assert(dns_line(s, host)[2] == ' ');
        assert(leave_line(s)[2] == ' ');
        assert(all_plain(redirect(rules.last(), host)));
        lemma_plain_parts(rule_redirects(rules.drop_last(), host), redirect(rules.last(), host));
    }
}

proof fn lemma_marks_plain(
    rules: Seq<RuleView>,
    host: HostView,
    marks: Seq<(Seq<char>, u32)>,
)
    ensures
        all_plain(rule_marks(rules, host, marks)),
{
    reveal_strlit("    ");
    let ls = rule_marks(rules, host, marks);
    assert forall|i: int| 0 <= i < ls.len() implies plain(#[trigger] ls[i]) by {
        assert(ls[i] == marking(rules[i], host, marks));
        assert(ls[i][2] == ' ');
    }
}

proof fn lemma_tor_marks_plain(
    paths: Seq<PathView>,
    host: HostView,
    marks: Seq<(Seq<char>, u32)>,
)
    ensures
        all_plain(tor_markings(paths, host, marks)),
    decreases paths.len(),
{
    if paths.len() > 0 {
        reveal_strlit("    # Tor itself takes the tunnel; apps take Tor.");
        reveal_strlit("    meta skuid ");
        lemma_tor_marks_plain(paths.drop_last(), host, marks);
        let last = tor_marking(paths.last(), host, marks);
        assert(all_plain(last)) by {
            if last.len() > 0 {
                assert(last[0][2] == ' ' && last[1][2] == ' ' && last[2][2] == ' ');
            }
        }
        lemma_plain_parts(tor_markings(paths.drop_last(), host, marks), last);
    }
}

proof fn lemma_tor_body_plain(policy: PolicyView, host: HostView)
    ensures
        all_plain(tor_chain(policy, host).skip(1)),
{
    reveal_strlit("    type nat hook output priority dstnat; policy accept;");
    reveal_strlit("    # Tor's own packets, or they never reach a relay.");
    reveal_strlit("    meta skuid ");
    reveal_strlit("    meta l4proto tcp redirect to :");
    reveal_strlit("    udp dport 53 redirect to :");
    reveal_strlit("  }");
    lemma_exclusions_plain(host);
    lemma_redirects_plain(policy.rules, host);
    let own = tor_itself(host);
    let rest = default_redirects(policy, host);
    assert(all_plain(own)) by {
        if let Some(uid) = host.tor_uid {
            assert(own[1][2] == ' ');
        }
    }
    assert(all_plain(rest)) by {
        if policy.default_path.tor() {
            assert(rest[0][2] == ' ' && rest[1][2] == ' ');
        }
    }
    let head = seq!["    type nat hook output priority dstnat; policy accept;"@];
    assert(all_plain(head) && all_plain(seq!["  }"@]));
    lemma_plain_parts(head, exclusions(host));
    lemma_plain_parts(head + exclusions(host), own);
    lemma_plain_parts(head + exclusions(host) + own, rule_redirects(policy.rules, host));
    lemma_plain_parts(head + exclusions(host) + own + rule_redirects(policy.rules, host), rest);
    lemma_plain_parts(
        head + exclusions(host) + own + rule_redirects(policy.rules, host) + rest,
        seq!["  }"@],
    );
    assert(tor_chain(policy, host).skip(1) =~= head + exclusions(host) + own + rule_redirects(
        policy.rules,
        host,
    ) + rest + seq!["  }"@]);
}

proof fn lemma_mark_body_plain(policy: PolicyView, host: HostView, marks: Seq<(Seq<char>, u32)>)
    ensures
        all_plain(mark_chain(policy, host, marks).skip(1)),
{
    reveal_strlit("    type route hook output priority mangle; policy accept;");
    reveal_strlit("    meta mark set ");
    reveal_strlit("    # Remember it, so the rest of the connection follows.");
    reveal_strlit("    meta mark != 0x0 ct mark set meta mark");
    reveal_strlit("  }");
    lemma_exclusions_plain(host);
    lemma_marks_plain(policy.rules, host, marks);
    lemma_tor_marks_plain(policy.paths(), host, marks);
    let head = seq!["    type route hook output priority mangle; policy accept;"@];
    let tor = tor_mark(policy, host, marks);
    let rest = default_mark(policy, marks);
    let save = saved_mark(marks);
    assert(all_plain(rest)) by {
        if rest.len() > 0 {
            assert(rest[0][2] == ' ');
        }
    }
    assert(all_plain(save));
    assert(all_plain(head) && all_plain(seq!["  }"@]));
    let a = head + exclusions(host);
    let rules = rule_marks(policy.rules, host, marks);
    lemma_plain_parts(head, exclusions(host));
    lemma_plain_parts(a, rules);
    lemma_plain_parts(a + rules, tor);
    lemma_plain_parts(a + rules + tor, rest);
    lemma_plain_parts(a + rules + tor + rest, save);
    lemma_plain_parts(a + rules + tor + rest + save, seq!["  }"@]);
    assert(mark_chain(policy, host, marks).skip(1) =~= a + rules + tor + rest + save + seq![
        "  }"@,
    ]);
}

proof fn lemma_masq_body_plain(lanes: Seq<LaneView>)
    ensures
        lanes.len() > 0 ==> all_plain(masq_chain(lanes).skip(1)),
{
    reveal_strlit("    type nat hook postrouting priority srcnat; policy accept;");
    reveal_strlit("    oifname \"");
    reveal_strlit("  }");
    if lanes.len() > 0 {
        let head = seq!["    type nat hook postrouting priority srcnat; policy accept;"@];
        let ls = masquerade_lines(lanes);
        assert forall|i: int| 0 <= i < ls.len() implies plain(#[trigger] ls[i]) by {
            assert(ls[i][2] == ' ');
        }
        assert(all_plain(head) && all_plain(seq!["  }"@]));
        lemma_plain_parts(head, ls);
        lemma_plain_parts(head + ls, seq!["  }"@]);
        assert(masq_chain(lanes).skip(1) =~= head + ls + seq!["  }"@]);
    }
}

/// Every line of a ruleset that opens a chain opens one of ours, and the name
/// of each of those is prefixed.
pub proof fn every_chain_is_one_of_ours(policy: PolicyView, host: HostView, i: int)
    requires
        0 <= i < ruleset(policy, host).len(),
        opens_chain(ruleset(policy, host)[i]),
    ensures
        ruleset(policy, host)[i] == "  chain "@ + NAT_CHAIN@ + " {"@ || ruleset(policy, host)[i]
            == "  chain "@ + MARK_CHAIN@ + " {"@ || ruleset(policy, host)[i] == "  chain "@
            + MASQ_CHAIN@ + " {"@,
{
    reveal_strlit("  chain ");
    reveal_strlit("# generated by throughline");
    reveal_strlit("table inet ");
    reveal_strlit("delete table inet ");
    reveal_strlit("}");
    let all = ruleset(policy, host);
    let line = all[i];
    assert(line.subrange(0, 8) == "  chain "@);
    assert(line[2] == "  chain "@[2]);
    assert(!plain(line));
    let tor = if policy.uses_tor() {
        tor_chain(policy, host)
    } else {
        seq![]
    };
    let marks = mark_chain(policy, host, policy.marks());
    let masq = masq_chain(policy.lanes());
    lemma_tor_body_plain(policy, host);
    lemma_mark_body_plain(policy, host, policy.marks());
    lemma_masq_body_plain(policy.lanes());
    let a = 4 + tor.len();
    let b = a + marks.len();
    let c = b + masq.len();
    if i < 4 {
        assert(all[0][2] != 'c' && all[1][2] != 'c' && all[2][2] != 'c' && all[3][2] != 'c');
    } else if i < a {
        let k = i - 4;
        assert(line == tor[k]);
        if k > 0 {
            assert(tor.skip(1)[k - 1] == line);
        }
    } else if i < b {
        let k = i - a;
        assert(line == marks[k]);
        if k > 0 {
            assert(marks.skip(1)[k - 1] == line);
        }
    } else if i < c {
        let k = i - b;
        assert(line == masq[k]);
        if k > 0 {
            assert(masq.skip(1)[k - 1] == line);
        }
    } else {
        assert(line == "}"@);
    }
}

// ---------------------------------------------------------------------------
// The record
// ---------------------------------------------------------------------------

/// Whether a text is made of visible characters of ASCII.
spec fn visible(s: Seq<char>) -> bool {
    s.len() > 0 && forall|i: int| 0 <= i < s.len() ==> '!' <= #[trigger] s[i] <= '~'
}

proof fn lemma_dec_visible(n: nat)
    ensures
        visible(dec(n)),
    decreases n,
{
    if n >= 10 {
        lemma_dec_visible(n / 10);
    }
}

proof fn lemma_hex_visible(n: nat)
    ensures
        visible(hex(n)),
    decreases n,
{
    if n >= 16 {
        lemma_hex_visible(n / 16);
    }
}

/// Whether a text is one line of ASCII.
spec fn one_line(s: Seq<char>) -> bool {
    forall|i: int| 0 <= i < s.len() ==> ' ' <= #[trigger] s[i] <= '~'
}

proof fn lemma_recordable(s: Seq<char>)
    requires
        one_line(s),
        s.len() > 0,
        s[0] == 'i' || s[0] == 'n',
        s.last() != ' ',
    ensures
        recordable(s),
{
    let c = s[s.len() - 1];
    assert(s.last() == c);
    assert(' ' < c <= '~');
    assert(!is_whitespace(c));
    lemma_trimmed_stays(s);
}

proof fn lemma_teardown_recordable(lane: LaneView)
    ensures
        recordable(lane.teardown()[0]),
        recordable(lane.teardown()[1]),
{
    reveal_strlit("ip route flush table ");
    reveal_strlit("ip rule ");
    reveal_strlit("del");
    reveal_strlit(" fwmark ");
    reveal_strlit("0x");
    reveal_strlit(" lookup ");
    reveal_strlit(" priority ");
    lemma_dec_visible(lane.table());
    lemma_dec_visible(lane.priority());
    lemma_hex_visible(lane.mark as nat);
    let flush = lane.teardown()[0];
    assert(flush[0] == 'i');
    assert(flush.last() == dec(lane.table()).last());
    assert(one_line("ip route flush table "@));
    assert(one_line(flush));
    lemma_recordable(flush);
    let del = lane.teardown()[1];
    let a = "ip rule "@ + "del"@ + " fwmark "@;
    let b = a + mark_text(lane.mark);
    let c = b + " lookup "@;
    let d = c + dec(lane.table());
    let e = d + " priority "@;
    assert(one_line(a) && a[0] == 'i');
    assert(one_line(mark_text(lane.mark)));
    assert(one_line(b) && b[0] == 'i');
    assert(one_line(c) && c[0] == 'i');
    assert(one_line(d) && d[0] == 'i');
    assert(one_line(e) && e[0] == 'i');
    assert(del == e + dec(lane.priority()));
    assert(one_line(del) && del[0] == 'i');
    assert(del.last() == dec(lane.priority()).last());
    lemma_recordable(del);
}

proof fn lemma_teardowns_recordable(lanes: Seq<LaneView>, i: int)
    requires
        0 <= i < teardowns(lanes).len(),
    ensures
        recordable(teardowns(lanes)[i]),
    decreases lanes.len(),
{
    let t = lanes.drop_last();
    let n = teardowns(t).len();
    if i < n {
        lemma_teardowns_recordable(t, i);
    } else {
        lemma_teardown_recordable(lanes.last());
    }
}

/// What undoes a compiled plan reads back from its record exactly as it was.
pub proof fn the_way_back_survives_its_record(policy: PolicyView, host: HostView, deadman: bool)
    ensures
        ({
            let a = AppliedView { revert: plan_for(policy, host).revert, deadman };
            record_of(unlines(record_lines(a))) == a && all_recordable(a)
        }),
{
    reveal_strlit("nft delete table inet ");
    reveal_strlit("throughline");
    let revert = plan_for(policy, host).revert;
    let first = "nft delete table inet "@ + TABLE@;
    assert(one_line("nft delete table inet "@) && one_line(TABLE@));
    assert(one_line(first) && first[0] == 'n');
    assert(first.last() == TABLE@.last());
    lemma_recordable(first);
    assert forall|i: int| 0 <= i < revert.len() implies recordable(#[trigger] revert[i]) by {
        if i > 0 {
            lemma_teardowns_recordable(policy.lanes(), i - 1);
        }
    }
    a_record_reads_back(AppliedView { revert, deadman });
}

} // verus!
