//! How the tunnels of a policy are numbered, and in what order they are shown.

use vstd::prelude::*;

use crate::guarantees::{lemma_lanes, marks_are_one_to_one};
use crate::order::{lex_le, sorting_keeps_every_value, Ranked};
use crate::policy::{
    mark_for, most_tunnels, numbered, plan_for, HostView, PolicyView, MARK_BASE,
};

verus! {

proof fn lemma_first_mark(marks: Seq<(Seq<char>, u32)>, label: Seq<char>, k: int)
    requires
        0 <= k < marks.len(),
        marks[k].0 == label,
        forall|a: int| 0 <= a < k ==> (#[trigger] marks[a]).0 != label,
    ensures
        mark_for(marks, label) == Some(marks[k].1),
    decreases k,
{
    if k > 0 {
        assert(marks[0].0 != label);
        let t = marks.skip(1);
        assert forall|a: int| 0 <= a < k - 1 implies (#[trigger] t[a]).0 != label by {
            assert(t[a] == marks[a + 1]);
        }
        lemma_first_mark(t, label, k - 1);
    }
}

proof fn lemma_mark_found(policy: PolicyView, i: int)
    requires
        policy.tunnels().len() <= most_tunnels(),
        0 <= i < policy.tunnels().len(),
    ensures
        mark_for(policy.marks(), policy.tunnels()[i].label()) == Some((MARK_BASE + i) as u32),
        MARK_BASE + i <= u32::MAX,
{
    let lanes = policy.lanes();
    let given = numbered(policy.tunnels());
    let marks = policy.marks();
    lemma_lanes(policy);
    assert(given.contains(given[i]));
    assert(lanes.contains(given[i]));
    let k = choose|k: int| 0 <= k < lanes.len() && lanes[k] == given[i];
    let label = policy.tunnels()[i].label();
    assert(marks.len() == lanes.len());
    assert(marks[k] == (lanes[k].path.label(), lanes[k].mark));
    assert forall|a: int| 0 <= a < k implies (#[trigger] marks[a]).0 != label by {
        assert(marks[a].0 == lanes[a].path.label());
        marks_are_one_to_one(policy, a, k);
    }
    lemma_first_mark(marks, label, k);
}

/// The marks are shown, and the commands run, in the order of the labels of the
/// paths, while the numbers are given out in the order in which the policy first
/// leads into a tunnel, one after the other.
pub proof fn marks_are_shown_by_label_and_numbered_as_they_come(
    policy: PolicyView,
    host: HostView,
    i: int,
    j: int,
)
    requires
        policy.tunnels().len() <= most_tunnels(),
        0 <= i < j < policy.tunnels().len(),
    ensures
        plan_for(policy, host).marks.len() == policy.tunnels().len(),
        lex_le(plan_for(policy, host).marks[i].0, plan_for(policy, host).marks[j].0),
        mark_for(plan_for(policy, host).marks, policy.tunnels()[i].label()) is Some,
        mark_for(plan_for(policy, host).marks, policy.tunnels()[j].label()) is Some,
        mark_for(plan_for(policy, host).marks, policy.tunnels()[j].label())->0 - mark_for(
            plan_for(policy, host).marks,
            policy.tunnels()[i].label(),
        )->0 == j - i,
{
    let lanes = policy.lanes();
    lemma_lanes(policy);
    sorting_keeps_every_value(numbered(policy.tunnels()));
    assert(lanes[i].le(lanes[j]));
    lemma_mark_found(policy, i);
    lemma_mark_found(policy, j);
}

} // verus!
