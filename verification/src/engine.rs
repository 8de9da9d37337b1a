//! The fixed-point engine: productions are applied to a growing graph, pass
//! after pass, until a whole pass changes nothing.

use vstd::prelude::*;
use crate::schema::ComponentDesc;
use crate::graphs::{
    Node, NodeId, Edge, EdgeId, CraftableGraph, node_ids, edge_ids, suffix_view, expression_model,
    contains_node, contains_edge, duplicate_suffix,
};
use crate::closure::{
    Rule, slot, group_met, fires, rule_edge, reach, reachable, produced, is_closure, saturated,
    lemma_fires_monotone, lemma_produced_monotone, lemma_closed_holds_reach,
    lemma_target_reachable,
};
use crate::seqs::{
    lemma_push_contains, lemma_push_no_duplicates, lemma_concat_contains,
    lemma_no_longer_than_cover, lemma_no_longer_than_two_covers,
};

verus! {

/// A production as the engine runs it: the node it yields, the recipe
/// variant that its edges carry, its ingredient expression, and whether it
/// may fire at all.
pub struct Production<'a> {
    pub enabled: bool,
    pub target: Node,
    pub suffix: Option<String>,
    pub groups: &'a Vec<Vec<ComponentDesc>>,
}

impl<'a> View for Production<'a> {
    type V = Rule;

    open spec fn view(&self) -> Rule {
        Rule {
            enabled: self.enabled,
            target: self.target@,
            suffix: suffix_view(self.suffix),
            groups: expression_model(self.groups@),
        }
    }
}

/// The rules of a list of productions, in order.
pub open spec fn rules_of(prods: Seq<Production>) -> Seq<Rule> {
    Seq::new(prods.len(), |i: int| prods[i]@)
}

/// The edges that the first `upto` groups of a rule can contribute.
pub open spec fn rule_slots(r: Rule, upto: int) -> Seq<EdgeId>
    decreases upto,
{
    if upto <= 0 {
        Seq::empty()
    } else {
        rule_slots(r, upto - 1) + Seq::new(
            r.groups[upto - 1].len(),
            |a: int| rule_edge(r, upto - 1, a),
        )
    }
}

/// The edges that the first `upto` rules can contribute.
pub open spec fn all_slots(rules: Seq<Rule>, upto: int) -> Seq<EdgeId>
    decreases upto,
{
    if upto <= 0 {
        Seq::empty()
    } else {
        all_slots(rules, upto - 1) + rule_slots(
            rules[upto - 1],
            rules[upto - 1].groups.len() as int,
        )
    }
}

/// How many alternatives the first `upto` groups hold together.
pub open spec fn slot_count(groups: Seq<Seq<NodeId>>, upto: int) -> int
    decreases upto,
{
    if upto <= 0 {
        0
    } else {
        slot_count(groups, upto - 1) + groups[upto - 1].len()
    }
}

/// A rule can contribute as many edges as it has alternatives.
pub proof fn lemma_rule_slots_counted(r: Rule, upto: int)
    ensures
        rule_slots(r, upto).len() == slot_count(r.groups, upto),
    decreases upto,
{
    if upto > 0 {
        lemma_rule_slots_counted(r, upto - 1);
    }
}

/// Where no rule has more than one alternative, the rules can contribute
/// no more edges than there are rules.
pub proof fn lemma_single_alternatives(rules: Seq<Rule>, upto: int)
    requires
        0 <= upto <= rules.len(),
        forall|i: int|
            0 <= i < rules.len() ==> slot_count(
                (#[trigger] rules[i]).groups,
                rules[i].groups.len() as int,
            ) <= 1,
    ensures
        all_slots(rules, upto).len() <= upto,
    decreases upto,
{
    if upto > 0 {
        lemma_single_alternatives(rules, upto - 1);
        lemma_rule_slots_counted(rules[upto - 1], rules[upto - 1].groups.len() as int);
    }
}

/// The nodes that can ever be in the graph: the seeds and the targets.
pub open spec fn all_nodes(rules: Seq<Rule>, seeds: Seq<NodeId>) -> Seq<NodeId> {
    seeds + Seq::new(rules.len(), |i: int| rules[i].target)
}

proof fn lemma_rule_slot_listed(r: Rule, upto: int, g: int, a: int)
    requires
        slot(r, g, a),
        g < upto <= r.groups.len(),
    ensures
        rule_slots(r, upto).contains(rule_edge(r, g, a)),
    decreases upto,
{
    let last = Seq::new(r.groups[upto - 1].len(), |a: int| rule_edge(r, upto - 1, a));
    lemma_concat_contains(rule_slots(r, upto - 1), last);
    if g < upto - 1 {
        lemma_rule_slot_listed(r, upto - 1, g, a);
    } else {
        assert(last[a] == rule_edge(r, g, a));
    }
}

proof fn lemma_slot_listed(rules: Seq<Rule>, upto: int, i: int, g: int, a: int)
    requires
        0 <= i < upto <= rules.len(),
        slot(rules[i], g, a),
    ensures
        all_slots(rules, upto).contains(rule_edge(rules[i], g, a)),
    decreases upto,
{
    let last = rule_slots(rules[upto - 1], rules[upto - 1].groups.len() as int);
    lemma_concat_contains(all_slots(rules, upto - 1), last);
    if i < upto - 1 {
        lemma_slot_listed(rules, upto - 1, i, g, a);
    } else {
        lemma_rule_slot_listed(rules[i], rules[i].groups.len() as int, g, a);
    }
}

proof fn lemma_reach_listed(rules: Seq<Rule>, seeds: Seq<NodeId>, strict: bool, k: nat, n: NodeId)
    requires
        reach(rules, seeds.to_set(), strict, k).contains(n),
    ensures
        all_nodes(rules, seeds).contains(n),
    decreases k,
{
    let targets = Seq::new(rules.len(), |i: int| rules[i].target);
    lemma_concat_contains(seeds, targets);
    if k > 0 {
        let prev = reach(rules, seeds.to_set(), strict, (k - 1) as nat);
        if prev.contains(n) {
            lemma_reach_listed(rules, seeds, strict, (k - 1) as nat, n);
        } else {
            let i = choose|i: int|
                0 <= i < rules.len() && fires(#[trigger] rules[i], prev, strict) && rules[i].target
                    == n;
            assert(targets[i] == n);
        }
    }
}

/// What holds of the graph all through a run: nothing is listed twice, the
/// seeds are there, every node is reachable, and every edge is produced and
/// ends in a node of the graph.
pub open spec fn sound(
    nodes: Seq<NodeId>,
    edges: Seq<EdgeId>,
    rules: Seq<Rule>,
    seeds: Seq<NodeId>,
    strict: bool,
) -> bool {
    &&& nodes.no_duplicates()
    &&& edges.no_duplicates()
    &&& forall|n: NodeId| #[trigger] seeds.contains(n) ==> nodes.contains(n)
    &&& forall|n: NodeId| #[trigger]
        nodes.contains(n) ==> reachable(rules, seeds.to_set(), strict, n)
    &&& forall|e: EdgeId| #[trigger]
        edges.contains(e) ==> produced(rules, nodes.to_set(), strict, e) && nodes.contains(e.dest)
}

/// Nothing that `before` lists is missing from `after`.
pub open spec fn grown(before: CraftableGraph, after: CraftableGraph) -> bool {
    &&& forall|n: NodeId| #[trigger]
        node_ids(before.nodes@).contains(n) ==> node_ids(after.nodes@).contains(n)
    &&& forall|e: EdgeId| #[trigger]
        edge_ids(before.edges@).contains(e) ==> edge_ids(after.edges@).contains(e)
    &&& before.nodes.len() <= after.nodes.len()
    &&& before.edges.len() <= after.edges.len()
}

proof fn lemma_sizes(
    nodes: Seq<NodeId>,
    edges: Seq<EdgeId>,
    rules: Seq<Rule>,
    seeds: Seq<NodeId>,
    strict: bool,
)
    requires
        sound(nodes, edges, rules, seeds, strict),
    ensures
        nodes.len() <= all_nodes(rules, seeds).len(),
        edges.len() <= all_slots(rules, rules.len() as int).len(),
{
    assert forall|n: NodeId| nodes.contains(n) implies all_nodes(rules, seeds).contains(n) by {
        assert(reachable(rules, seeds.to_set(), strict, n));
        let k = choose|k: nat| (#[trigger] reach(rules, seeds.to_set(), strict, k)).contains(n);
        lemma_reach_listed(rules, seeds, strict, k, n);
    }
    lemma_no_longer_than_cover(nodes, all_nodes(rules, seeds));
    assert forall|e: EdgeId| edges.contains(e) implies all_slots(
        rules,
        rules.len() as int,
    ).contains(e) by {
        assert(produced(rules, nodes.to_set(), strict, e));
        let (i, g, a) = choose|i: int, g: int, a: int|
            0 <= i < rules.len() && fires(rules[i], nodes.to_set(), strict) && slot(rules[i], g, a)
                && nodes.to_set().contains(rules[i].groups[g][a]) && e == #[trigger] rule_edge(
                rules[i],
                g,
                a,
            );
        lemma_slot_listed(rules, rules.len() as int, i, g, a);
    }
    lemma_no_longer_than_cover(edges, all_slots(rules, rules.len() as int));
}

/// Adds the edge of alternative `(g, a)` of rule `i`, which is not there
/// yet, and the rule's target unless it is there.
fn add_edge(
    graph: &mut CraftableGraph,
    p: &Production,
    source: Node,
    add_target: bool,
    Ghost(rules): Ghost<Seq<Rule>>,
    Ghost(seeds): Ghost<Seq<NodeId>>,
    Ghost(strict): Ghost<bool>,
    Ghost(i): Ghost<int>,
    Ghost(g): Ghost<int>,
    Ghost(a): Ghost<int>,
)
    requires
        sound(node_ids(old(graph).nodes@), edge_ids(old(graph).edges@), rules, seeds, strict),
        0 <= i < rules.len(),
        rules[i] == p@,
        slot(rules[i], g, a),
        source@ == rules[i].groups[g][a],
        node_ids(old(graph).nodes@).contains(source@),
        fires(rules[i], node_ids(old(graph).nodes@).to_set(), strict),
        !edge_ids(old(graph).edges@).contains(rule_edge(rules[i], g, a)),
        add_target ==> !node_ids(old(graph).nodes@).contains(p.target@),
        !add_target ==> node_ids(old(graph).nodes@).contains(p.target@),
    ensures
        sound(node_ids(final(graph).nodes@), edge_ids(final(graph).edges@), rules, seeds, strict),
        grown(*old(graph), *final(graph)),
        final(graph).edges.len() == old(graph).edges.len() + 1,
        node_ids(final(graph).nodes@).contains(p.target@),
        edge_ids(final(graph).edges@).contains(rule_edge(rules[i], g, a)),
        !add_target ==> final(graph).nodes == old(graph).nodes,
        forall|n: NodeId|
            node_ids(final(graph).nodes@).contains(n) ==> node_ids(old(graph).nodes@).contains(n)
                || n == p.target@,
{
    let ghost nodes0 = node_ids(graph.nodes@);
    let ghost edges0 = edge_ids(graph.edges@);
    let edge = Edge {
        source,
        dest: p.target.duplicate(),
        recipe_suffix: duplicate_suffix(&p.suffix),
    };
    assert(edge@ == rule_edge(rules[i], g, a));
    graph.edges.push(edge);
    if add_target {
        graph.nodes.push(p.target.duplicate());
    }
    proof {
        let nodes1 = node_ids(graph.nodes@);
        let edges1 = edge_ids(graph.edges@);
        let new_edge = rule_edge(rules[i], g, a);
        assert(edges1 =~= edges0.push(new_edge));
        lemma_push_contains(edges0, new_edge);
        lemma_push_no_duplicates(edges0, new_edge);
        lemma_push_contains(nodes0, p.target@);
        if add_target {
            assert(nodes1 =~= nodes0.push(p.target@));
            lemma_push_no_duplicates(nodes0, p.target@);
        } else {
            assert(nodes1 =~= nodes0);
        }
        assert(nodes0.to_set().subset_of(nodes1.to_set()));
        lemma_target_reachable(rules, seeds.to_set(), strict, nodes0.to_set(), i);
        lemma_fires_monotone(rules[i], nodes0.to_set(), nodes1.to_set(), strict);
        assert forall|e: EdgeId| #[trigger] edges1.contains(e) implies produced(
            rules,
            nodes1.to_set(),
            strict,
            e,
        ) && nodes1.contains(e.dest) by {
            if edges0.contains(e) {
                lemma_produced_monotone(rules, nodes0.to_set(), nodes1.to_set(), strict, e);
            } else {
                assert(e == rule_edge(rules[i], g, a));
                assert(nodes1.to_set().contains(rules[i].groups[g][a]));
            }
        }
    }
}

/// Applies one production under loose satisfaction: the first alternative
/// at hand whose edge is missing contributes that edge and the target.
fn loose_step(
    graph: &mut CraftableGraph,
    p: &Production,
    Ghost(rules): Ghost<Seq<Rule>>,
    Ghost(seeds): Ghost<Seq<NodeId>>,
    Ghost(i): Ghost<int>,
) -> (changed: bool)
    requires
        sound(node_ids(old(graph).nodes@), edge_ids(old(graph).edges@), rules, seeds, false),
        0 <= i < rules.len(),
        rules[i] == p@,
    ensures
        sound(node_ids(final(graph).nodes@), edge_ids(final(graph).edges@), rules, seeds, false),
        grown(*old(graph), *final(graph)),
        changed ==> final(graph).edges.len() > old(graph).edges.len(),
        !changed ==> *final(graph) == *old(graph) && saturated(
            rules[i],
            node_ids(old(graph).nodes@).to_set(),
            edge_ids(old(graph).edges@).to_set(),
            false,
        ),
{
    if !p.enabled {
        return false;
    }
    let ghost r = rules[i];
    let ghost nodes0 = node_ids(graph.nodes@);
    let ghost edges0 = edge_ids(graph.edges@);
    let mut g: usize = 0;
    while g < p.groups.len()
        invariant
            g <= p.groups.len(),
            p.enabled,
            *graph == *old(graph),
            r == rules[i],
            r == p@,
            0 <= i < rules.len(),
            nodes0 == node_ids(graph.nodes@),
            edges0 == edge_ids(graph.edges@),
            sound(nodes0, edges0, rules, seeds, false),
            forall|h: int, b: int|
                slot(r, h, b) && h < g && nodes0.contains(r.groups[h][b]) ==> edges0.contains(
                    #[trigger] rule_edge(r, h, b),
                ),
        decreases p.groups.len() - g,
    {
        let group = &p.groups[g];
        let mut a: usize = 0;
        while a < group.len()
            invariant
                g < p.groups.len(),
                a <= group.len(),
                group == &p.groups[g as int],
                p.enabled,
                *graph == *old(graph),
                r == rules[i],
                r == p@,
                0 <= i < rules.len(),
                nodes0 == node_ids(graph.nodes@),
                edges0 == edge_ids(graph.edges@),
                sound(nodes0, edges0, rules, seeds, false),
                forall|h: int, b: int|
                    slot(r, h, b) && (h < g || (h == g && b < a)) && nodes0.contains(
                        r.groups[h][b],
                    ) ==> edges0.contains(#[trigger] rule_edge(r, h, b)),
            decreases group.len() - a,
        {
            let source = Node::from_component(&group[a]);
            assert(source@ == r.groups[g as int][a as int]);
            assert(slot(r, g as int, a as int));
            if contains_node(&graph.nodes, &source) {
                if !contains_edge(&graph.edges, &source, &p.target, &p.suffix) {
                    let add_target = !contains_node(&graph.nodes, &p.target);
                    proof {
                        assert(nodes0.to_set().contains(r.groups[g as int][a as int]));
                        assert(group_met(r.groups[g as int], nodes0.to_set()));
                        assert(fires(r, nodes0.to_set(), false));
                    }
                    add_edge(
                        graph,
                        p,
                        source,
                        add_target,
                        Ghost(rules),
                        Ghost(seeds),
                        Ghost(false),
                        Ghost(i),
                        Ghost(g as int),
                        Ghost(a as int),
                    );
                    return true;
                }
            }
            a += 1;
        }
        g += 1;
    }
    proof {
        if fires(r, nodes0.to_set(), false) {
            let h = choose|h: int|
                0 <= h < r.groups.len() && group_met(#[trigger] r.groups[h], nodes0.to_set());
            let b = choose|b: int|
                0 <= b < r.groups[h].len() && nodes0.to_set().contains(r.groups[h][b]);
            assert(slot(r, h, b));
            assert(edges0.contains(rule_edge(r, h, b)));
        }
    }
    false
}

/// Whether some alternative of the group is among the nodes.
fn group_at_hand(nodes: &[Node], group: &Vec<ComponentDesc>) -> (r: bool)
    ensures
        r == group_met(
            Seq::new(group@.len(), |a: int| crate::graphs::alternative_node(group@[a])),
            node_ids(nodes@).to_set(),
        ),
{
    let ghost model = Seq::new(group@.len(), |a: int| crate::graphs::alternative_node(group@[a]));
    let mut a: usize = 0;
    while a < group.len()
        invariant
            a <= group.len(),
            model == Seq::new(group@.len(), |a: int| crate::graphs::alternative_node(group@[a])),
            forall|b: int| 0 <= b < a ==> !node_ids(nodes@).contains(#[trigger] model[b]),
        decreases group.len() - a,
    {
        let source = Node::from_component(&group[a]);
        if contains_node(nodes, &source) {
            assert(node_ids(nodes@).to_set().contains(model[a as int]));
            return true;
        }
        a += 1;
    }
    false
}

/// Whether every group of the expression has an alternative among the
/// nodes.
pub fn strictly_satisfied(nodes: &[Node], components: &Vec<Vec<ComponentDesc>>) -> (r: bool)
    ensures
        r == crate::closure::strict_satisfied(
            expression_model(components@),
            node_ids(nodes@).to_set(),
        ),
{
    let ghost groups = expression_model(components@);
    let mut g: usize = 0;
    while g < components.len()
        invariant
            g <= components.len(),
            groups == expression_model(components@),
            forall|h: int| 0 <= h < g ==> group_met(#[trigger] groups[h], node_ids(nodes@).to_set()),
        decreases components.len() - g,
    {
        if !group_at_hand(nodes, &components[g]) {
            assert(groups[g as int] =~= Seq::new(
                components@[g as int]@.len(),
                |a: int| crate::graphs::alternative_node(components@[g as int]@[a]),
            ));
            assert(!group_met(groups[g as int], node_ids(nodes@).to_set()));
            return false;
        }
        assert(groups[g as int] =~= Seq::new(
            components@[g as int]@.len(),
            |a: int| crate::graphs::alternative_node(components@[g as int]@[a]),
        ));
        g += 1;
    }
    true
}

/// Applies one production under strict satisfaction: when every group has
/// an alternative at hand, the target and the edges from all alternatives
/// at hand are added.
fn strict_step(
    graph: &mut CraftableGraph,
    p: &Production,
    Ghost(rules): Ghost<Seq<Rule>>,
    Ghost(seeds): Ghost<Seq<NodeId>>,
    Ghost(i): Ghost<int>,
) -> (changed: bool)
    requires
        sound(node_ids(old(graph).nodes@), edge_ids(old(graph).edges@), rules, seeds, true),
        0 <= i < rules.len(),
        rules[i] == p@,
    ensures
        sound(node_ids(final(graph).nodes@), edge_ids(final(graph).edges@), rules, seeds, true),
        grown(*old(graph), *final(graph)),
        changed ==> final(graph).edges.len() + final(graph).nodes.len() > old(graph).edges.len()
            + old(graph).nodes.len(),
        !changed ==> *final(graph) == *old(graph) && saturated(
            rules[i],
            node_ids(old(graph).nodes@).to_set(),
            edge_ids(old(graph).edges@).to_set(),
            true,
        ),
{
    if !p.enabled {
        return false;
    }
    if !strictly_satisfied(&graph.nodes, p.groups) {
        return false;
    }
    let ghost r = rules[i];
    let ghost before = *graph;
    let mut changed = false;
    if !contains_node(&graph.nodes, &p.target) {
        let ghost nodes0 = node_ids(graph.nodes@);
        graph.nodes.push(p.target.duplicate());
        changed = true;
        proof {
            let nodes1 = node_ids(graph.nodes@);
            let edges = edge_ids(graph.edges@);
            assert(nodes1 =~= nodes0.push(p.target@));
            lemma_push_contains(nodes0, p.target@);
            lemma_push_no_duplicates(nodes0, p.target@);
            assert(nodes0.to_set().subset_of(nodes1.to_set()));
            lemma_target_reachable(rules, seeds.to_set(), true, nodes0.to_set(), i);
            lemma_fires_monotone(r, nodes0.to_set(), nodes1.to_set(), true);
            assert forall|e: EdgeId| #[trigger] edges.contains(e) implies produced(
                rules,
                nodes1.to_set(),
                true,
                e,
            ) && nodes1.contains(e.dest) by {
                lemma_produced_monotone(rules, nodes0.to_set(), nodes1.to_set(), true, e);
            }
        }
    }
    let ghost middle = *graph;
    let mut g: usize = 0;
    while g < p.groups.len()
        invariant
            g <= p.groups.len(),
            r == rules[i],
            r == p@,
            0 <= i < rules.len(),
            graph.nodes == middle.nodes,
            node_ids(graph.nodes@).contains(r.target),
            fires(r, node_ids(graph.nodes@).to_set(), true),
            sound(node_ids(graph.nodes@), edge_ids(graph.edges@), rules, seeds, true),
            grown(before, *graph),
            changed ==> graph.edges.len() + graph.nodes.len() > before.edges.len()
                + before.nodes.len(),
            !changed ==> *graph == before,
            forall|h: int, b: int|
                slot(r, h, b) && h < g && node_ids(graph.nodes@).contains(r.groups[h][b])
                    ==> edge_ids(graph.edges@).contains(#[trigger] rule_edge(r, h, b)),
        decreases p.groups.len() - g,
    {
        let mut a: usize = 0;
        while a < p.groups[g].len()
            invariant
                g < p.groups.len(),
                a <= p.groups[g as int].len(),
                r == rules[i],
                r == p@,
                0 <= i < rules.len(),
                graph.nodes == middle.nodes,
                node_ids(graph.nodes@).contains(r.target),
                fires(r, node_ids(graph.nodes@).to_set(), true),
                sound(node_ids(graph.nodes@), edge_ids(graph.edges@), rules, seeds, true),
                grown(before, *graph),
                changed ==> graph.edges.len() + graph.nodes.len() > before.edges.len()
                    + before.nodes.len(),
                !changed ==> *graph == before,
                forall|h: int, b: int|
                    slot(r, h, b) && (h < g || (h == g && b < a)) && node_ids(
                        graph.nodes@,
                    ).contains(r.groups[h][b]) ==> edge_ids(graph.edges@).contains(
                        #[trigger] rule_edge(r, h, b),
                    ),
            decreases p.groups[g as int].len() - a,
        {
            let source = Node::from_component(&p.groups[g][a]);
            assert(source@ == r.groups[g as int][a as int]);
            assert(slot(r, g as int, a as int));
            if contains_node(&graph.nodes, &source) {
                if !contains_edge(&graph.edges, &source, &p.target, &p.suffix) {
                    add_edge(
                        graph,
                        p,
                        source,
                        false,
                        Ghost(rules),
                        Ghost(seeds),
                        Ghost(true),
                        Ghost(i),
                        Ghost(g as int),
                        Ghost(a as int),
                    );
                    changed = true;
                }
            }
            a += 1;
        }
        g += 1;
    }
    changed
}

/// One pass: every production is applied once, in order. The graph only
/// grows, and a pass that changes nothing leaves every rule saturated.
pub fn pass(
    graph: &mut CraftableGraph,
    prods: &Vec<Production>,
    strict: bool,
    Ghost(seeds): Ghost<Seq<NodeId>>,
) -> (changed: bool)
    requires
        sound(
            node_ids(old(graph).nodes@),
            edge_ids(old(graph).edges@),
            rules_of(prods@),
            seeds,
            strict,
        ),
    ensures
        sound(
            node_ids(final(graph).nodes@),
            edge_ids(final(graph).edges@),
            rules_of(prods@),
            seeds,
            strict,
        ),
        grown(*old(graph), *final(graph)),
        changed ==> final(graph).edges.len() + final(graph).nodes.len() > old(graph).edges.len()
            + old(graph).nodes.len(),
        changed && !strict ==> final(graph).edges.len() > old(graph).edges.len(),
        !changed ==> *final(graph) == *old(graph),
        !changed ==> forall|i: int|
            0 <= i < prods.len() ==> saturated(
                #[trigger] rules_of(prods@)[i],
                node_ids(old(graph).nodes@).to_set(),
                edge_ids(old(graph).edges@).to_set(),
                strict,
            ),
{
    let ghost rules = rules_of(prods@);
    let ghost before = *graph;
    let mut changed = false;
    let mut i: usize = 0;
    while i < prods.len()
        invariant
            i <= prods.len(),
            rules == rules_of(prods@),
            sound(node_ids(graph.nodes@), edge_ids(graph.edges@), rules, seeds, strict),
            grown(before, *graph),
            changed ==> graph.edges.len() + graph.nodes.len() > before.edges.len()
                + before.nodes.len(),
            changed && !strict ==> graph.edges.len() > before.edges.len(),
            !changed ==> *graph == before,
            !changed ==> forall|j: int|
                0 <= j < i ==> saturated(
                    #[trigger] rules[j],
                    node_ids(before.nodes@).to_set(),
                    edge_ids(before.edges@).to_set(),
                    strict,
                ),
        decreases prods.len() - i,
    {
        let stepped = if strict {
            strict_step(graph, &prods[i], Ghost(rules), Ghost(seeds), Ghost(i as int))
        } else {
            loose_step(graph, &prods[i], Ghost(rules), Ghost(seeds), Ghost(i as int))
        };
        if stepped {
            changed = true;
        }
        i += 1;
    }
    changed
}

/// The closure of `seeds` under the productions, by strict or by loose
/// satisfaction: passes are repeated until one changes nothing.
pub fn close(seeds: &[Node], prods: &Vec<Production>, strict: bool) -> (graph: CraftableGraph)
    ensures
        is_closure(graph, rules_of(prods@), node_ids(seeds@).to_set(), strict),
{
    close_counted(seeds, prods, strict).0
}

/// The closure of `seeds` under the productions, with the number of passes
/// that it took and the number of those passes that added a node.
///
/// Every pass but the last adds a node or an edge, so there are no more
/// passes than one above the nodes and edges that can be added. A pass
/// that adds a node adds the target of a rule, so there are no more such
/// passes than rules. Under loose satisfaction every pass but the last
/// adds an edge, so there are no more passes than one above the
/// alternatives of all rules.
pub fn close_counted(seeds: &[Node], prods: &Vec<Production>, strict: bool) -> (r: (
    CraftableGraph,
    u128,
    usize,
))
    ensures
        is_closure(r.0, rules_of(prods@), node_ids(seeds@).to_set(), strict),
        1 <= r.1 <= r.0.nodes.len() + r.0.edges.len() + 1,
        r.1 <= all_nodes(rules_of(prods@), node_ids(seeds@)).len() + all_slots(
            rules_of(prods@),
            prods.len() as int,
        ).len() + 1,
        r.2 <= prods.len(),
        r.2 < r.1,
        !strict ==> r.1 <= r.0.edges.len() + 1,
        !strict ==> r.1 <= all_slots(rules_of(prods@), prods.len() as int).len() + 1,
{
    let ghost rules = rules_of(prods@);
    let ghost seed_ids = node_ids(seeds@);
    let mut graph = CraftableGraph { nodes: Vec::new(), edges: Vec::new() };
    let mut s: usize = 0;
    while s < seeds.len()
        invariant
            s <= seeds.len(),
            seed_ids == node_ids(seeds@),
            graph.edges@.len() == 0,
            node_ids(graph.nodes@).no_duplicates(),
            forall|j: int| 0 <= j < s ==> node_ids(graph.nodes@).contains(#[trigger] seed_ids[j]),
            forall|n: NodeId| #[trigger]
                node_ids(graph.nodes@).contains(n) ==> seed_ids.contains(n),
        decreases seeds.len() - s,
    {
        if !contains_node(&graph.nodes, &seeds[s]) {
            let ghost nodes0 = node_ids(graph.nodes@);
            graph.nodes.push(seeds[s].duplicate());
            proof {
                assert(seed_ids[s as int] == seeds@[s as int]@);
                assert(node_ids(graph.nodes@) =~= nodes0.push(seeds@[s as int]@));
                lemma_push_contains(nodes0, seeds@[s as int]@);
                lemma_push_no_duplicates(nodes0, seeds@[s as int]@);
            }
        }
        s += 1;
    }
    proof {
        assert(edge_ids(graph.edges@) =~= Seq::<EdgeId>::empty());
        assert forall|n: NodeId| #[trigger] node_ids(graph.nodes@).contains(n) implies reachable(
            rules,
            seed_ids.to_set(),
            strict,
            n,
        ) by {
            assert(reach(rules, seed_ids.to_set(), strict, 0).contains(n));
        }
    }
    let seeded = graph.nodes.len();
    let ghost seeded_ids = node_ids(graph.nodes@);
    let mut changed = true;
    let mut passes: u128 = 0;
    let mut growing: usize = 0;
    while changed
        invariant
            rules == rules_of(prods@),
            seed_ids == node_ids(seeds@),
            sound(node_ids(graph.nodes@), edge_ids(graph.edges@), rules, seed_ids, strict),
            seeded == seeded_ids.len(),
            forall|n: NodeId| seed_ids.contains(n) ==> #[trigger] seeded_ids.contains(n),
            growing + seeded <= graph.nodes.len(),
            changed ==> growing <= passes,
            !changed ==> growing < passes,
            changed ==> passes <= graph.nodes.len() + graph.edges.len(),
            !changed ==> 1 <= passes <= graph.nodes.len() + graph.edges.len() + 1,
            changed && !strict ==> passes <= graph.edges.len(),
            !changed && !strict ==> passes <= graph.edges.len() + 1,
            !changed ==> forall|i: int|
                0 <= i < rules.len() ==> saturated(
                    #[trigger] rules[i],
                    node_ids(graph.nodes@).to_set(),
                    edge_ids(graph.edges@).to_set(),
                    strict,
                ),
        decreases
                all_slots(rules, rules.len() as int).len() - graph.edges.len() + all_nodes(
                    rules,
                    seed_ids,
                ).len() - graph.nodes.len() + if changed {
                    1int
                } else {
                    0int
                },
    {
        proof {
            lemma_sizes(node_ids(graph.nodes@), edge_ids(graph.edges@), rules, seed_ids, strict);
        }
        let before = graph.nodes.len();
        changed = pass(&mut graph, prods, strict, Ghost(seed_ids));
        passes = passes + 1;
        if graph.nodes.len() > before {
            growing = growing + 1;
        }
        proof {
            lemma_sizes(node_ids(graph.nodes@), edge_ids(graph.edges@), rules, seed_ids, strict);
        }
    }
    proof {
        let nodes = graph.node_set();
        let edges = graph.edge_set();
        assert(seed_ids.to_set().subset_of(nodes));
        assert forall|n: NodeId| reachable(rules, seed_ids.to_set(), strict, n) implies nodes.contains(
            n,
        ) by {
            let k = choose|k: nat| (#[trigger] reach(rules, seed_ids.to_set(), strict, k)).contains(n);
            lemma_closed_holds_reach(rules, seed_ids.to_set(), strict, nodes, k);
        }
        assert forall|e: EdgeId| produced(rules, nodes, strict, e) implies edges.contains(e) by {
            let (i, g, a) = choose|i: int, g: int, a: int|
                0 <= i < rules.len() && fires(rules[i], nodes, strict) && slot(rules[i], g, a)
                    && nodes.contains(rules[i].groups[g][a]) && e == #[trigger] rule_edge(
                    rules[i],
                    g,
                    a,
                );
            assert(saturated(rules[i], nodes, edges, strict));
        }
        lemma_sizes(node_ids(graph.nodes@), edge_ids(graph.edges@), rules, seed_ids, strict);
        let targets = Seq::new(rules.len(), |i: int| rules[i].target);
        assert forall|n: NodeId| node_ids(graph.nodes@).contains(n) implies seeded_ids.contains(n)
            || targets.contains(n) by {
            let k = choose|k: nat| (#[trigger] reach(rules, seed_ids.to_set(), strict, k)).contains(n);
            lemma_reach_listed(rules, seed_ids, strict, k, n);
            lemma_concat_contains(seed_ids, targets);
        }
        lemma_no_longer_than_two_covers(node_ids(graph.nodes@), seeded_ids, targets);
    }
    (graph, passes, growing)
}

} // verus!
