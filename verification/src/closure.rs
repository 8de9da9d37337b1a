//! The mathematics of the craftability closure: production rules over
//! nodes, the two ways an ingredient expression can be satisfied, and the
//! least fixed point that the graph engine computes.

use vstd::prelude::*;
use crate::graphs::{NodeId, EdgeId, CraftableGraph};

verus! {

/// A production rule: when its ingredient groups are satisfied by the nodes
/// at hand, `target` becomes a node. A rule that is not `enabled` never
/// fires.
pub struct Rule {
    pub enabled: bool,
    pub target: NodeId,
    pub suffix: Option<Seq<char>>,
    pub groups: Seq<Seq<NodeId>>,
}

/// `(g, a)` names an alternative of the rule: alternative `a` of group `g`.
pub open spec fn slot(r: Rule, g: int, a: int) -> bool {
    0 <= g < r.groups.len() && 0 <= a < r.groups[g].len()
}

/// Some alternative of the group is among `nodes`.
pub open spec fn group_met(group: Seq<NodeId>, nodes: Set<NodeId>) -> bool {
    exists|a: int| 0 <= a < group.len() && nodes.contains(#[trigger] group[a])
}

/// Every alternative of the group is among `nodes`.
pub open spec fn group_blocked(group: Seq<NodeId>, nodes: Set<NodeId>) -> bool {
    forall|a: int| 0 <= a < group.len() ==> nodes.contains(#[trigger] group[a])
}

/// Loose satisfaction: one group with an alternative at hand is enough.
pub open spec fn loose_satisfied(groups: Seq<Seq<NodeId>>, nodes: Set<NodeId>) -> bool {
    exists|g: int| 0 <= g < groups.len() && group_met(#[trigger] groups[g], nodes)
}

/// Strict satisfaction: every group has an alternative at hand.
pub open spec fn strict_satisfied(groups: Seq<Seq<NodeId>>, nodes: Set<NodeId>) -> bool {
    forall|g: int| 0 <= g < groups.len() ==> group_met(#[trigger] groups[g], nodes)
}

/// Some group cannot avoid `nodes`: each of its alternatives is among them.
pub open spec fn mandatory_unobtainable(groups: Seq<Seq<NodeId>>, nodes: Set<NodeId>) -> bool {
    exists|g: int| 0 <= g < groups.len() && group_blocked(#[trigger] groups[g], nodes)
}

/// Whether the rule fires on `nodes`, under strict or loose satisfaction.
pub open spec fn fires(r: Rule, nodes: Set<NodeId>, strict: bool) -> bool {
    r.enabled && if strict {
        strict_satisfied(r.groups, nodes)
    } else {
        loose_satisfied(r.groups, nodes)
    }
}

/// The edge that alternative `(g, a)` of the rule contributes.
pub open spec fn rule_edge(r: Rule, g: int, a: int) -> EdgeId {
    EdgeId { source: r.groups[g][a], dest: r.target, suffix: r.suffix }
}

/// One synchronous round: `nodes` and the target of every rule that fires
/// on them.
pub open spec fn round(rules: Seq<Rule>, nodes: Set<NodeId>, strict: bool) -> Set<NodeId> {
    Set::new(
        |n: NodeId|
            nodes.contains(n) || exists|i: int|
                0 <= i < rules.len() && fires(#[trigger] rules[i], nodes, strict) && rules[i].target
                    == n,
    )
}

/// The nodes derivable from `seeds` in at most `k` rounds.
pub open spec fn reach(rules: Seq<Rule>, seeds: Set<NodeId>, strict: bool, k: nat) -> Set<NodeId>
    decreases k,
{
    if k == 0 {
        seeds
    } else {
        round(rules, reach(rules, seeds, strict, (k - 1) as nat), strict)
    }
}

/// Membership in the least set that holds `seeds` and is closed under the
/// rules.
pub open spec fn reachable(rules: Seq<Rule>, seeds: Set<NodeId>, strict: bool, n: NodeId) -> bool {
    exists|k: nat| (#[trigger] reach(rules, seeds, strict, k)).contains(n)
}

/// `e` is contributed by an alternative at hand of a rule that fires on
/// `nodes`.
pub open spec fn produced(rules: Seq<Rule>, nodes: Set<NodeId>, strict: bool, e: EdgeId) -> bool {
    exists|i: int, g: int, a: int|
        0 <= i < rules.len() && fires(rules[i], nodes, strict) && slot(rules[i], g, a)
            && nodes.contains(rules[i].groups[g][a]) && e == #[trigger] rule_edge(rules[i], g, a)
}

/// The graph is the closure of `seeds` under `rules`: its nodes are exactly
/// the reachable ones, and its edges exactly those that the firing rules
/// contribute from the nodes of the graph.
pub open spec fn is_closure(
    graph: CraftableGraph,
    rules: Seq<Rule>,
    seeds: Set<NodeId>,
    strict: bool,
) -> bool {
    &&& graph.wf()
    &&& forall|n: NodeId| #[trigger]
        graph.node_set().contains(n) <==> reachable(rules, seeds, strict, n)
    &&& forall|e: EdgeId| #[trigger]
        graph.edge_set().contains(e) <==> produced(rules, graph.node_set(), strict, e)
}

/// The rule has nothing left to add: if it fires, its target and the edges
/// from all its alternatives at hand are there.
pub open spec fn saturated(r: Rule, nodes: Set<NodeId>, edges: Set<EdgeId>, strict: bool) -> bool {
    fires(r, nodes, strict) ==> nodes.contains(r.target) && forall|g: int, a: int|
        slot(r, g, a) && nodes.contains(r.groups[g][a]) ==> edges.contains(
            #[trigger] rule_edge(r, g, a),
        )
}

/// A rule that fires keeps firing when nodes are added.
pub proof fn lemma_fires_monotone(r: Rule, small: Set<NodeId>, large: Set<NodeId>, strict: bool)
    requires
        small.subset_of(large),
        fires(r, small, strict),
    ensures
        fires(r, large, strict),
{
    if strict {
        assert forall|g: int| 0 <= g < r.groups.len() implies group_met(
            #[trigger] r.groups[g],
            large,
        ) by {
            assert(group_met(r.groups[g], small));
            let a = choose|a: int| 0 <= a < r.groups[g].len() && small.contains(r.groups[g][a]);
            assert(large.contains(r.groups[g][a]));
        }
    } else {
        let g = choose|g: int| 0 <= g < r.groups.len() && group_met(#[trigger] r.groups[g], small);
        let a = choose|a: int| 0 <= a < r.groups[g].len() && small.contains(r.groups[g][a]);
        assert(large.contains(r.groups[g][a]));
        assert(group_met(r.groups[g], large));
    }
}

/// Strict satisfaction of a rule with a group implies loose satisfaction.
pub proof fn lemma_strict_implies_loose(r: Rule, nodes: Set<NodeId>)
    requires
        fires(r, nodes, true),
        r.groups.len() > 0,
    ensures
        fires(r, nodes, false),
{
    assert(group_met(r.groups[0], nodes));
}

/// Where every rule has a group, what is reached under strict satisfaction
/// is reached under loose satisfaction, in as many rounds.
pub proof fn lemma_strict_within_loose(rules: Seq<Rule>, seeds: Set<NodeId>, k: nat)
    requires
        forall|i: int| 0 <= i < rules.len() ==> (#[trigger] rules[i]).groups.len() > 0,
    ensures
        reach(rules, seeds, true, k).subset_of(reach(rules, seeds, false, k)),
    decreases k,
{
    if k > 0 {
        let strict = reach(rules, seeds, true, (k - 1) as nat);
        let loose = reach(rules, seeds, false, (k - 1) as nat);
        lemma_strict_within_loose(rules, seeds, (k - 1) as nat);
        assert forall|n: NodeId| reach(rules, seeds, true, k).contains(n) implies reach(
            rules,
            seeds,
            false,
            k,
        ).contains(n) by {
            if !strict.contains(n) {
                let i = choose|i: int|
                    0 <= i < rules.len() && fires(#[trigger] rules[i], strict, true)
                        && rules[i].target == n;
                lemma_fires_monotone(rules[i], strict, loose, true);
                lemma_strict_implies_loose(rules[i], loose);
            }
        }
    }
}

/// An edge that is produced stays produced when nodes are added.
pub proof fn lemma_produced_monotone(
    rules: Seq<Rule>,
    small: Set<NodeId>,
    large: Set<NodeId>,
    strict: bool,
    e: EdgeId,
)
    requires
        small.subset_of(large),
        produced(rules, small, strict, e),
    ensures
        produced(rules, large, strict, e),
{
    let (i, g, a) = choose|i: int, g: int, a: int|
        0 <= i < rules.len() && fires(rules[i], small, strict) && slot(rules[i], g, a)
            && small.contains(rules[i].groups[g][a]) && e == #[trigger] rule_edge(rules[i], g, a);
    lemma_fires_monotone(rules[i], small, large, strict);
    assert(large.contains(rules[i].groups[g][a]));
    assert(e == rule_edge(rules[i], g, a));
}

/// More rounds reach no fewer nodes.
pub proof fn lemma_reach_monotone(
    rules: Seq<Rule>,
    seeds: Set<NodeId>,
    strict: bool,
    j: nat,
    k: nat,
)
    requires
        j <= k,
    ensures
        reach(rules, seeds, strict, j).subset_of(reach(rules, seeds, strict, k)),
    decreases k,
{
    if j < k {
        lemma_reach_monotone(rules, seeds, strict, j, (k - 1) as nat);
    }
}

/// A set that holds the seeds and is closed under the rules holds every
/// reachable node.
pub proof fn lemma_closed_holds_reach(
    rules: Seq<Rule>,
    seeds: Set<NodeId>,
    strict: bool,
    nodes: Set<NodeId>,
    k: nat,
)
    requires
        seeds.subset_of(nodes),
        forall|i: int|
            0 <= i < rules.len() && fires(#[trigger] rules[i], nodes, strict) ==> nodes.contains(
                rules[i].target,
            ),
    ensures
        reach(rules, seeds, strict, k).subset_of(nodes),
    decreases k,
{
    if k > 0 {
        let prev = reach(rules, seeds, strict, (k - 1) as nat);
        lemma_closed_holds_reach(rules, seeds, strict, nodes, (k - 1) as nat);
        assert forall|n: NodeId| reach(rules, seeds, strict, k).contains(n) implies nodes.contains(
            n,
        ) by {
            if !prev.contains(n) {
                let i = choose|i: int|
                    0 <= i < rules.len() && fires(#[trigger] rules[i], prev, strict)
                        && rules[i].target == n;
                lemma_fires_monotone(rules[i], prev, nodes, strict);
            }
        }
    }
}

/// The target of a rule that fires on reachable nodes is reachable.
pub proof fn lemma_target_reachable(
    rules: Seq<Rule>,
    seeds: Set<NodeId>,
    strict: bool,
    nodes: Set<NodeId>,
    i: int,
)
    requires
        0 <= i < rules.len(),
        fires(rules[i], nodes, strict),
        forall|n: NodeId| nodes.contains(n) ==> reachable(rules, seeds, strict, n),
    ensures
        reachable(rules, seeds, strict, rules[i].target),
{
    let r = rules[i];
    if strict {
        let k = lemma_common_depth(rules, seeds, nodes, r.groups, r.groups.len() as int);
        assert forall|g: int| 0 <= g < r.groups.len() implies group_met(
            #[trigger] r.groups[g],
            reach(rules, seeds, true, k),
        ) by {}
        assert(fires(rules[i], reach(rules, seeds, strict, k), strict));
        assert(reach(rules, seeds, strict, k + 1).contains(r.target));
    } else {
        let g = choose|g: int| 0 <= g < r.groups.len() && group_met(#[trigger] r.groups[g], nodes);
        let a = choose|a: int| 0 <= a < r.groups[g].len() && nodes.contains(r.groups[g][a]);
        assert(reachable(rules, seeds, strict, r.groups[g][a]));
        let k = choose|k: nat| (#[trigger] reach(rules, seeds, strict, k)).contains(r.groups[g][a]);
        assert(group_met(r.groups[g], reach(rules, seeds, strict, k)));
        assert(fires(rules[i], reach(rules, seeds, strict, k), strict));
        assert(reach(rules, seeds, strict, k + 1).contains(r.target));
    }
}

/// The first `upto` groups, each met by reachable nodes, are all met within
/// one number of rounds.
proof fn lemma_common_depth(
    rules: Seq<Rule>,
    seeds: Set<NodeId>,
    nodes: Set<NodeId>,
    groups: Seq<Seq<NodeId>>,
    upto: int,
) -> (k: nat)
    requires
        0 <= upto <= groups.len(),
        strict_satisfied(groups, nodes),
        forall|n: NodeId| nodes.contains(n) ==> reachable(rules, seeds, true, n),
    ensures
        forall|g: int|
            0 <= g < upto ==> group_met(#[trigger] groups[g], reach(rules, seeds, true, k)),
    decreases upto,
{
    if upto == 0 {
        0
    } else {
        let k0 = lemma_common_depth(rules, seeds, nodes, groups, upto - 1);
        let last = groups[upto - 1];
        assert(group_met(last, nodes));
        let a = choose|a: int| 0 <= a < last.len() && nodes.contains(last[a]);
        assert(reachable(rules, seeds, true, last[a]));
        let k1 = choose|k: nat| (#[trigger] reach(rules, seeds, true, k)).contains(last[a]);
        let k: nat = if k0 <= k1 {
            k1
        } else {
            k0
        };
        lemma_reach_monotone(rules, seeds, true, k0, k);
        lemma_reach_monotone(rules, seeds, true, k1, k);
        assert forall|g: int| 0 <= g < upto implies group_met(
            #[trigger] groups[g],
            reach(rules, seeds, true, k),
        ) by {
            if g < upto - 1 {
                let b = choose|b: int|
                    0 <= b < groups[g].len() && reach(rules, seeds, true, k0).contains(
                        groups[g][b],
                    );
                assert(reach(rules, seeds, true, k).contains(groups[g][b]));
            } else {
                assert(reach(rules, seeds, true, k).contains(last[a]));
            }
        }
        k
    }
}

} // verus!
