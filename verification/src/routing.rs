//! What the routing commands of a plan say, word by word.
//!
//! A mark leads into a tunnel by two commands: a rule that looks a mark up in a
//! table, and a route in that table. Nothing but the words of the two ties them
//! together, so it is the words that are held against one another here.

use vstd::prelude::*;
use vstd::string::*;

use crate::apply::{
    all_recordable, one_missing_rule_is_enough, printed, standing,
    the_rules_are_there_where_each_is_printed, AppliedView,
};
use crate::guarantees::{
    a_path_has_a_mark_exactly_where_it_needs_a_tunnel, every_step_has_its_undo, lemma_lanes,
    marks_are_one_to_one, the_way_back_survives_its_record,
};
use crate::num::{dec, dec_is_injective, decimal, dec_reads_back, hex, lemma_dec_digits, lemma_hex_digits};
use crate::policy::{mark_text, most_tunnels, plan_for, HostView, LaneView, PathView, PlanView, PolicyView};
use crate::text::{
    behind, is_word, lemma_digits_are_a_word, lemma_one_word, lemma_word_more, told, words,
    words_of_two_parts,
};

verus! {

proof fn lemma_number_is_a_word(n: nat)
    ensures
        is_word(dec(n)),
{
    lemma_dec_digits(n);
    lemma_digits_are_a_word(dec(n));
}

proof fn lemma_mark_is_a_word(m: u32)
    ensures
        is_word(mark_text(m)),
{
    reveal_strlit("0x");
    lemma_hex_digits(m as nat);
    let t = mark_text(m);
    assert forall|i: int| 0 <= i < t.len() implies '!' <= #[trigger] t[i] <= '~' by {
        if i >= 2 {
            assert(t[i] == hex(m as nat)[i - 2]);
        }
    }
    lemma_digits_are_a_word(t);
}

/// The words of a command that adds or deletes a routing rule.
proof fn lemma_rule_words(verb: Seq<char>, m: Seq<char>, t: Seq<char>, p: Seq<char>)
    requires
        is_word(verb),
        is_word(m),
        is_word(t),
        is_word(p),
    ensures
        words("ip rule "@ + verb + " fwmark "@ + m + " lookup "@ + t + " priority "@ + p) == seq![
            "ip"@,
            "rule"@,
            verb,
            "fwmark"@,
            m,
            "lookup"@,
            t,
            "priority"@,
            p,
        ],
{
    reveal_strlit("ip rule ");
    reveal_strlit(" fwmark ");
    reveal_strlit(" lookup ");
    reveal_strlit(" priority ");
    reveal_strlit("ip");
    reveal_strlit("rule");
    reveal_strlit("fwmark");
    reveal_strlit("lookup");
    reveal_strlit("priority");
    let a = "ip"@;
    let b = a + seq![' '] + "rule"@;
    let c = b + seq![' '] + verb;
    let d = c + seq![' '] + "fwmark"@;
    let e = d + seq![' '] + m;
    let f = e + seq![' '] + "lookup"@;
    let g = f + seq![' '] + t;
    let h = g + seq![' '] + "priority"@;
    let i = h + seq![' '] + p;
    lemma_one_word(a);
    lemma_word_more(a, "rule"@);
    lemma_word_more(b, verb);
    lemma_word_more(c, "fwmark"@);
    lemma_word_more(d, m);
    lemma_word_more(e, "lookup"@);
    lemma_word_more(f, t);
    lemma_word_more(g, "priority"@);
    lemma_word_more(h, p);
    assert(i =~= "ip rule "@ + verb + " fwmark "@ + m + " lookup "@ + t + " priority "@ + p);
    assert(words(i) =~= seq!["ip"@, "rule"@, verb, "fwmark"@, m, "lookup"@, t, "priority"@, p]);
}

/// What is told by the words of such a command.
proof fn lemma_rule_told(verb: Seq<char>, m: Seq<char>, t: Seq<char>, p: Seq<char>)
    requires
        is_word(verb),
        is_word(m),
        is_word(t),
        is_word(p),
        '0' <= m[0] <= '9',
        '0' <= t[0] <= '9',
        '0' <= p[0] <= '9',
    ensures
        ({
            let c = "ip rule "@ + verb + " fwmark "@ + m + " lookup "@ + t + " priority "@ + p;
            &&& told(c, "fwmark"@) == Some(m)
            &&& told(c, "lookup"@) == Some(t)
            &&& told(c, "priority"@) == Some(p)
        }),
{
    lemma_rule_words(verb, m, t, p);
    reveal_strlit("fwmark");
    reveal_strlit("lookup");
    reveal_strlit("priority");
    assert("fwmark"@[0] == 'f' && "lookup"@[0] == 'l' && "priority"@[0] == 'p');
    let w = seq!["ip"@, "rule"@, verb, "fwmark"@, m, "lookup"@, t, "priority"@, p];
    assert(w.drop_last().last() == "priority"@);
    assert(w.drop_last().drop_last().last() == t);
    let v = w.drop_last().drop_last();
    assert(v[v.len() - 2] == "lookup"@);
    assert(v.drop_last().drop_last().last() == m);
    reveal_with_fuel(behind, 6);
    assert(behind(w, "priority"@) == Some(p));
    assert(behind(w, "lookup"@) == Some(t));
    assert(behind(w, "fwmark"@) == Some(m));
}

/// The words of a command that fills a routing table.
proof fn lemma_route_words(interface: Seq<char>, t: Seq<char>)
    requires
        is_word(t),
    ensures
        ({
            let c = "ip route add default dev "@ + interface + " table "@ + t;
            &&& words(c) == seq!["ip"@, "route"@, "add"@, "default"@, "dev"@] + words(interface)
                + seq!["table"@, t]
            &&& told(c, "table"@) == Some(t)
        }),
{
    reveal_strlit("ip route add default dev ");
    reveal_strlit(" table ");
    reveal_strlit("ip");
    reveal_strlit("route");
    reveal_strlit("add");
    reveal_strlit("default");
    reveal_strlit("dev");
    reveal_strlit("table");
    let a = "ip"@;
    let b = a + seq![' '] + "route"@;
    let c = b + seq![' '] + "add"@;
    let d = c + seq![' '] + "default"@;
    let e = d + seq![' '] + "dev"@;
    let f = e + seq![' '] + interface;
    let g = f + seq![' '] + "table"@;
    let h = g + seq![' '] + t;
    lemma_one_word(a);
    lemma_word_more(a, "route"@);
    lemma_word_more(b, "add"@);
    lemma_word_more(c, "default"@);
    lemma_word_more(d, "dev"@);
    words_of_two_parts(e, ' ', interface);
    lemma_word_more(f, "table"@);
    lemma_word_more(g, t);
    assert(h =~= "ip route add default dev "@ + interface + " table "@ + t);
    assert(words(h) =~= seq!["ip"@, "route"@, "add"@, "default"@, "dev"@] + words(interface) + seq![
        "table"@,
        t,
    ]);
}

proof fn lemma_flush_words(t: Seq<char>)
    requires
        is_word(t),
    ensures
        words("ip route flush table "@ + t) == seq!["ip"@, "route"@, "flush"@, "table"@, t],
        told("ip route flush table "@ + t, "table"@) == Some(t),
{
    reveal_strlit("ip route flush table ");
    reveal_strlit("ip");
    reveal_strlit("route");
    reveal_strlit("flush");
    reveal_strlit("table");
    let a = "ip"@;
    let b = a + seq![' '] + "route"@;
    let c = b + seq![' '] + "flush"@;
    let d = c + seq![' '] + "table"@;
    let e = d + seq![' '] + t;
    lemma_one_word(a);
    lemma_word_more(a, "route"@);
    lemma_word_more(b, "flush"@);
    lemma_word_more(c, "table"@);
    lemma_word_more(d, t);
    assert(e =~= "ip route flush table "@ + t);
    assert(words(e) =~= seq!["ip"@, "route"@, "flush"@, "table"@, t]);
}

/// What the four commands of a lane say.
proof fn lemma_lane_told(lane: LaneView)
    ensures
        ({
            let m = Some(mark_text(lane.mark));
            let t = Some(dec(lane.table()));
            let p = Some(dec(lane.priority()));
            let rule = lane.setup()[0];
            let undo = lane.teardown()[1];
            &&& words(rule).take(3) == seq!["ip"@, "rule"@, "add"@]
            &&& words(undo).take(3) == seq!["ip"@, "rule"@, "del"@]
            &&& told(rule, "fwmark"@) == m && told(undo, "fwmark"@) == m
            &&& told(rule, "lookup"@) == t && told(undo, "lookup"@) == t
            &&& told(rule, "priority"@) == p && told(undo, "priority"@) == p
            &&& told(lane.setup()[1], "table"@) == t
            &&& told(lane.teardown()[0], "table"@) == t
            &&& words(lane.setup()[1]).take(5) == seq![
                "ip"@,
                "route"@,
                "add"@,
                "default"@,
                "dev"@,
            ]
            &&& words(lane.setup()[1]).len() == 7 + words(lane.interface()).len()
            &&& words(lane.setup()[1]).subrange(5, 5 + words(lane.interface()).len() as int)
                == words(lane.interface())
            &&& words(lane.teardown()[0]).take(3) == seq!["ip"@, "route"@, "flush"@]
        }),
{
    let m = mark_text(lane.mark);
    let t = dec(lane.table());
    let p = dec(lane.priority());
    lemma_mark_is_a_word(lane.mark);
    lemma_number_is_a_word(lane.table());
    lemma_number_is_a_word(lane.priority());
    lemma_dec_digits(lane.table());
    lemma_dec_digits(lane.priority());
    reveal_strlit("0x");
    reveal_strlit("add");
    reveal_strlit("del");
    assert(m[0] == '0');
    lemma_rule_told("add"@, m, t, p);
    lemma_rule_told("del"@, m, t, p);
    lemma_rule_words("add"@, m, t, p);
    lemma_rule_words("del"@, m, t, p);
    lemma_route_words(lane.interface(), t);
    lemma_flush_words(t);
    assert(words(lane.setup()[0]).take(3) =~= seq!["ip"@, "rule"@, "add"@]);
    assert(words(lane.teardown()[1]).take(3) =~= seq!["ip"@, "rule"@, "del"@]);
    let r = words(lane.setup()[1]);
    assert(r.take(5) =~= seq!["ip"@, "route"@, "add"@, "default"@, "dev"@]);
    assert(r.subrange(5, 5 + words(lane.interface()).len() as int) =~= words(lane.interface()));
    assert(words(lane.teardown()[0]).take(3) =~= seq!["ip"@, "route"@, "flush"@]);
}

/// The commands of a plan come in pairs, a rule and a route, and each pair
/// belongs together: the table that the rule looks its mark up in is the table
/// that the route fills, and the one that the undo flushes. The undo deletes the
/// very rule: the same mark, the same table, the same priority.
pub proof fn a_rule_looks_up_the_table_that_its_route_fills(
    policy: PolicyView,
    host: HostView,
    k: int,
)
    requires
        0 <= 2 * k + 1 < plan_for(policy, host).ip.len(),
    ensures
        ({
            let plan = plan_for(policy, host);
            let rule = plan.ip[2 * k];
            let route = plan.ip[2 * k + 1];
            let flush = plan.revert[2 * k + 1];
            let del = plan.revert[2 * k + 2];
            &&& plan.revert.len() == plan.ip.len() + 1
            &&& told(rule, "lookup"@) is Some
            &&& told(rule, "fwmark"@) is Some
            &&& told(rule, "priority"@) is Some
            &&& told(route, "table"@) == told(rule, "lookup"@)
            &&& told(flush, "table"@) == told(rule, "lookup"@)
            &&& told(del, "fwmark"@) == told(rule, "fwmark"@)
            &&& told(del, "lookup"@) == told(rule, "lookup"@)
            &&& told(del, "priority"@) == told(rule, "priority"@)
            &&& words(rule).take(3) == seq!["ip"@, "rule"@, "add"@]
            &&& words(route).take(5) == seq!["ip"@, "route"@, "add"@, "default"@, "dev"@]
            &&& words(flush).take(3) == seq!["ip"@, "route"@, "flush"@]
            &&& words(del).take(3) == seq!["ip"@, "rule"@, "del"@]
        }),
{
    every_step_has_its_undo(policy, host);
    assert(0 <= k < policy.lanes().len());
    let lane = policy.lanes()[k];
    lemma_lane_told(lane);
}

/// No two pairs of commands share a mark, a table or a priority, and no table is
/// one that the kernel keeps for itself.
pub proof fn no_two_tunnels_share_a_table(policy: PolicyView, host: HostView, j: int, k: int)
    requires
        policy.tunnels().len() <= most_tunnels(),
        0 <= j < k,
        2 * k + 1 < plan_for(policy, host).ip.len(),
    ensures
        ({
            let plan = plan_for(policy, host);
            let a = plan.ip[2 * j];
            let b = plan.ip[2 * k];
            &&& told(a, "fwmark"@) != told(b, "fwmark"@)
            &&& told(a, "lookup"@) != told(b, "lookup"@)
            &&& told(a, "priority"@) != told(b, "priority"@)
            &&& decimal(told(a, "lookup"@)->0, 0xffff_ffff) matches Some(n) && n > 255
            &&& decimal(told(b, "lookup"@)->0, 0xffff_ffff) matches Some(n) && n > 255
        }),
{
    every_step_has_its_undo(policy, host);
    marks_are_one_to_one(policy, j, k);
    let a = policy.lanes()[j];
    let b = policy.lanes()[k];
    lemma_lane_told(a);
    lemma_lane_told(b);
    if mark_text(a.mark) == mark_text(b.mark) {
        lemma_hex_digits(a.mark as nat);
        lemma_hex_digits(b.mark as nat);
        reveal_strlit("0x");
        assert(mark_text(a.mark).skip(2) =~= hex(a.mark as nat));
        assert(mark_text(b.mark).skip(2) =~= hex(b.mark as nat));
    }
    if dec(a.table()) == dec(b.table()) {
        dec_is_injective(a.table(), b.table());
    }
    if dec(a.priority()) == dec(b.priority()) {
        dec_is_injective(a.priority(), b.priority());
    }
    crate::policy::lemma_lane_numbers(policy);
    dec_reads_back(a.table(), 0xffff_ffff);
    dec_reads_back(b.table(), 0xffff_ffff);
}

/// Whether a pair of a plan's commands leads a mark into a tunnel: what carries
/// the mark is looked up in a table, and in that table everything goes out by the
/// interface.
pub open spec fn leads(plan: PlanView, k: int, mark: u32, interface: Seq<char>) -> bool {
    &&& 0 <= 2 * k + 1 < plan.ip.len()
    &&& told(plan.ip[2 * k], "fwmark"@) == Some("0x"@ + hex(mark as nat))
    &&& told(plan.ip[2 * k], "lookup"@) is Some
    &&& told(plan.ip[2 * k + 1], "table"@) == told(plan.ip[2 * k], "lookup"@)
    &&& words(plan.ip[2 * k + 1]) == seq!["ip"@, "route"@, "add"@, "default"@, "dev"@] + words(
        interface,
    ) + seq!["table"@, told(plan.ip[2 * k], "lookup"@)->0]
}

/// Every path that needs a tunnel has one mark, and that mark leads into that
/// tunnel.
pub proof fn a_mark_leads_into_its_own_tunnel(policy: PolicyView, host: HostView, path: PathView)
    requires
        policy.tunnels().len() <= most_tunnels(),
        policy.routes().contains(path),
        path.tunnel() is Some,
    ensures
        exists|k: int, m: u32|
            #![trigger leads(plan_for(policy, host), k, m, path.tunnel()->0)]
            leads(plan_for(policy, host), k, m, path.tunnel()->0) && plan_for(
                policy,
                host,
            ).marks[k] == (path.label(), m),
{
    every_step_has_its_undo(policy, host);
    a_path_has_a_mark_exactly_where_it_needs_a_tunnel(policy, path);
    lemma_lanes(policy);
    let plan = plan_for(policy, host);
    let m = crate::policy::mark_for(policy.marks(), path.label())->0;
    let lane = LaneView { path, mark: m };
    assert(policy.lanes().contains(lane));
    let k = choose|k: int| 0 <= k < policy.lanes().len() && policy.lanes()[k] == lane;
    let lane = policy.lanes()[k];
    lemma_lane_told(lane);
    lemma_number_is_a_word(lane.table());
    lemma_route_words(lane.interface(), dec(lane.table()));
    assert(leads(plan, k, m, path.tunnel()->0));
    assert(plan.marks[k] == (path.label(), m));
}

/// Of a plan that was recorded, the rules are said to be present exactly where
/// the mark of each of its routing rules is printed by `ip rule show`.
#[verifier::spinoff_prover]
pub proof fn the_rules_are_present_where_every_mark_is_printed(
    policy: PolicyView,
    host: HostView,
    deadman: bool,
    tables: Seq<char>,
    shown: Seq<char>,
    timer: Seq<char>,
)
    ensures
        ({
            let plan = plan_for(policy, host);
            let a = AppliedView { revert: plan.revert, deadman };
            standing(a, tables, shown, timer).rules_present <==> forall|i: int|
                0 <= i < plan.ip.len() && i % 2 == 0 ==> printed(
                    shown,
                    told(#[trigger] plan.ip[i], "fwmark"@)->0,
                )
        }),
{
    let plan = plan_for(policy, host);
    let a = AppliedView { revert: plan.revert, deadman };
    let s = standing(a, tables, shown, timer);
    every_step_has_its_undo(policy, host);
    the_way_back_survives_its_record(policy, host, deadman);
    assert(all_recordable(a));
    reveal_strlit("ip rule del");
    assert forall|i: int| 0 <= i < a.revert.len() implies ((#[trigger] a.revert[i]).len() >= 11
        && a.revert[i].take(11) == "ip rule del"@ <==> i > 0 && i % 2 == 0) by {
        lemma_which_delete(policy, host, i);
    }
    assert forall|i: int| 0 <= i < plan.ip.len() && i % 2 == 0 implies words(
        a.revert[i + 2],
    ).len() > 4 && words(a.revert[i + 2])[4] == told(#[trigger] plan.ip[i], "fwmark"@)->0 by {
        let k = i / 2;
        assert(i == 2 * k);
        let lane = policy.lanes()[k];
        lemma_mark_is_a_word(lane.mark);
        lemma_number_is_a_word(lane.table());
        lemma_number_is_a_word(lane.priority());
        reveal_strlit("del");
        lemma_rule_words(
            "del"@,
            mark_text(lane.mark),
            dec(lane.table()),
            dec(lane.priority()),
        );
        lemma_lane_told(lane);
    }
    if s.rules_present {
        assert forall|i: int| 0 <= i < plan.ip.len() && i % 2 == 0 implies printed(
            shown,
            told(#[trigger] plan.ip[i], "fwmark"@)->0,
        ) by {
            if !printed(shown, told(plan.ip[i], "fwmark"@)->0) {
                assert((i + 2) % 2 == 0);
                assert(a.revert[i + 2].len() >= 11 && a.revert[i + 2].take(11) == "ip rule del"@);
                one_missing_rule_is_enough(a, tables, shown, timer, i + 2);
            }
        }
    }
    if forall|i: int|
        0 <= i < plan.ip.len() && i % 2 == 0 ==> printed(
            shown,
            told(#[trigger] plan.ip[i], "fwmark"@)->0,
        ) {
        assert forall|i: int|
            0 <= i < a.revert.len() && a.revert[i].len() >= 11 && (#[trigger] a.revert[i]).take(11)
                == "ip rule del"@ implies words(a.revert[i]).len() > 4 && printed(
            shown,
            words(a.revert[i])[4],
        ) by {
            assert(i > 0 && i % 2 == 0);
            assert((i - 2) % 2 == 0);
            assert(words(a.revert[i - 2 + 2])[4] == told(plan.ip[i - 2], "fwmark"@)->0);
        }
        the_rules_are_there_where_each_is_printed(a, tables, shown, timer);
    }
}

/// Of the steps that undo a plan, every second one deletes a routing rule.
proof fn lemma_which_delete(policy: PolicyView, host: HostView, i: int)
    requires
        0 <= i < plan_for(policy, host).revert.len(),
    ensures
        ({
            let c = plan_for(policy, host).revert[i];
            c.len() >= 11 && c.take(11) == "ip rule del"@ <==> i > 0 && i % 2 == 0
        }),
{
    let c = plan_for(policy, host).revert[i];
    every_step_has_its_undo(policy, host);
    reveal_strlit("ip rule del");
    reveal_strlit("ip rule ");
    reveal_strlit("del");
    reveal_strlit("nft delete table inet ");
    reveal_strlit("ip route flush table ");
    if i == 0 {
        assert(c[0] == 'n');
        assert(c.take(11)[0] == 'n');
    } else if i % 2 == 0 {
        let k = (i - 2) / 2;
        let lane = policy.lanes()[k];
        assert(c == lane.teardown()[1]);
        assert(c.take(11) =~= "ip rule del"@);
    } else {
        let k = (i - 1) / 2;
        let lane = policy.lanes()[k];
        assert(c == lane.teardown()[0]);
        assert(c.take(11)[4] == 'o');
        assert("ip rule del"@[4] == 'u');
    }
}

} // verus!
