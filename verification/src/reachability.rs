//! The two craftability questions: what can be produced from held items
//! (forward reachability, by loose satisfaction) and what a pantry expands
//! to (by strict satisfaction), with the predicates they share.

use vstd::prelude::*;
use vstd::string::StringExecFns;
use crate::schema::{ComponentDesc, Quality, Recipe, Requirement};
use crate::graphs::{
    Node, NodeId, Edge, CraftableGraph, node_ids, suffix_view, expression_model, alternative_node,
    contains_node, duplicate_suffix,
};
use crate::closure::{Rule, group_blocked, mandatory_unobtainable, strict_satisfied, is_closure};
use crate::engine::{
    Production, rules_of, close_counted, strictly_satisfied, all_slots, slot_count,
    lemma_single_alternatives,
};
use crate::seqs::lemma_push_contains;

verus! {

/// The characters of each string of a list, in order.
pub open spec fn string_ids(v: Seq<String>) -> Seq<Seq<char>> {
    v.map_values(|s: String| s@)
}

/// The item and the requirement node of every listed identifier.
pub open spec fn named_nodes(names: Seq<String>) -> Set<NodeId> {
    Set::new(|n: NodeId| string_ids(names).contains(n.name()))
}

/// The item nodes of the listed identifiers, in order.
pub open spec fn item_seeds(from: Seq<String>) -> Seq<NodeId> {
    Seq::new(from.len(), |i: int| NodeId::Item(from[i]@))
}

/// Requirement `i` cannot avoid `members`: one of its groups has nothing
/// but alternatives among them.
pub open spec fn blocked(requirements: Seq<Requirement>, i: int, members: Set<NodeId>) -> bool {
    mandatory_unobtainable(expression_model(requirements[i].components@), members)
}

/// The unobtainable nodes after `k` rounds: in every round, each
/// requirement that cannot avoid the nodes of the round before joins them.
pub open spec fn unobtainable_after(
    start: Set<NodeId>,
    requirements: Seq<Requirement>,
    k: nat,
) -> Set<NodeId>
    decreases k,
{
    if k == 0 {
        start
    } else {
        let before = unobtainable_after(start, requirements, (k - 1) as nat);
        Set::new(
            |n: NodeId|
                before.contains(n) || exists|i: int|
                    0 <= i < requirements.len() && #[trigger] blocked(requirements, i, before) && n
                        == NodeId::Requirement(requirements[i].id@),
        )
    }
}

/// The node is unobtainable after some number of rounds.
pub open spec fn is_unobtainable(
    start: Set<NodeId>,
    requirements: Seq<Requirement>,
    n: NodeId,
) -> bool {
    exists|k: nat| (#[trigger] unobtainable_after(start, requirements, k)).contains(n)
}

/// The transitive closure of the unobtainable nodes over the requirements:
/// the least set that holds `start` and every requirement that cannot avoid
/// the set. The order of the requirements does not matter.
pub open spec fn unobtainable_closure(
    start: Set<NodeId>,
    requirements: Seq<Requirement>,
) -> Set<NodeId> {
    Set::new(|n: NodeId| is_unobtainable(start, requirements, n))
}

/// How many of the first `upto` marks are not set.
pub open spec fn unmarked(marks: Seq<bool>, upto: int) -> int
    decreases upto,
{
    if upto <= 0 {
        0
    } else {
        unmarked(marks, upto - 1) + if marks[upto - 1] {
            0int
        } else {
            1int
        }
    }
}

proof fn lemma_unmarked_bounds(marks: Seq<bool>, upto: int)
    ensures
        0 <= unmarked(marks, upto),
    decreases upto,
{
    if upto > 0 {
        lemma_unmarked_bounds(marks, upto - 1);
    }
}

proof fn lemma_mark(marks: Seq<bool>, i: int, upto: int)
    requires
        0 <= i < marks.len(),
        0 <= upto <= marks.len(),
        !marks[i],
    ensures
        unmarked(marks.update(i, true), upto) == unmarked(marks, upto) - if i < upto {
            1int
        } else {
            0int
        },
    decreases upto,
{
    if upto > 0 {
        lemma_mark(marks, i, upto - 1);
    }
}

/// A requirement that cannot avoid a set cannot avoid a larger one.
pub proof fn lemma_blocked_monotone(
    requirements: Seq<Requirement>,
    i: int,
    small: Set<NodeId>,
    large: Set<NodeId>,
)
    requires
        small.subset_of(large),
        blocked(requirements, i, small),
    ensures
        blocked(requirements, i, large),
{
    let groups = expression_model(requirements[i].components@);
    let g = choose|g: int| 0 <= g < groups.len() && group_blocked(#[trigger] groups[g], small);
    assert forall|a: int| 0 <= a < groups[g].len() implies large.contains(
        #[trigger] groups[g][a],
    ) by {
        assert(small.contains(groups[g][a]));
    }
    assert(group_blocked(groups[g], large));
}

/// More rounds find no fewer unobtainable nodes.
pub proof fn lemma_unobtainable_monotone(
    start: Set<NodeId>,
    requirements: Seq<Requirement>,
    j: nat,
    k: nat,
)
    requires
        j <= k,
    ensures
        unobtainable_after(start, requirements, j).subset_of(
            unobtainable_after(start, requirements, k),
        ),
    decreases k,
{
    if j < k {
        lemma_unobtainable_monotone(start, requirements, j, (k - 1) as nat);
    }
}

/// The first `upto` alternatives of a group, each unobtainable, are all
/// unobtainable after one number of rounds.
proof fn lemma_common_rounds(
    start: Set<NodeId>,
    requirements: Seq<Requirement>,
    group: Seq<NodeId>,
    upto: int,
) -> (k: nat)
    requires
        0 <= upto <= group.len(),
        forall|a: int|
            0 <= a < group.len() ==> is_unobtainable(start, requirements, #[trigger] group[a]),
    ensures
        forall|a: int|
            0 <= a < upto ==> unobtainable_after(start, requirements, k).contains(
                #[trigger] group[a],
            ),
    decreases upto,
{
    if upto == 0 {
        0
    } else {
        let k0 = lemma_common_rounds(start, requirements, group, upto - 1);
        let last = group[upto - 1];
        assert(is_unobtainable(start, requirements, last));
        let k1 = choose|k: nat| (#[trigger] unobtainable_after(start, requirements, k)).contains(
            last,
        );
        let k: nat = if k0 <= k1 {
            k1
        } else {
            k0
        };
        lemma_unobtainable_monotone(start, requirements, k0, k);
        lemma_unobtainable_monotone(start, requirements, k1, k);
        assert forall|a: int| 0 <= a < upto implies unobtainable_after(
            start,
            requirements,
            k,
        ).contains(#[trigger] group[a]) by {
            if a < upto - 1 {
                assert(unobtainable_after(start, requirements, k0).contains(group[a]));
            }
        }
        k
    }
}

/// A requirement that cannot avoid a set of unobtainable nodes is
/// unobtainable.
proof fn lemma_joins(
    start: Set<NodeId>,
    requirements: Seq<Requirement>,
    i: int,
    members: Set<NodeId>,
)
    requires
        0 <= i < requirements.len(),
        blocked(requirements, i, members),
        forall|n: NodeId| members.contains(n) ==> is_unobtainable(start, requirements, n),
    ensures
        is_unobtainable(start, requirements, NodeId::Requirement(requirements[i].id@)),
{
    let groups = expression_model(requirements[i].components@);
    let g = choose|g: int| 0 <= g < groups.len() && group_blocked(#[trigger] groups[g], members);
    assert forall|a: int| 0 <= a < groups[g].len() implies is_unobtainable(
        start,
        requirements,
        #[trigger] groups[g][a],
    ) by {
        assert(members.contains(groups[g][a]));
    }
    let k = lemma_common_rounds(start, requirements, groups[g], groups[g].len() as int);
    let reached = unobtainable_after(start, requirements, k);
    assert(group_blocked(groups[g], reached));
    assert(blocked(requirements, i, reached));
    assert(unobtainable_after(start, requirements, k + 1).contains(
        NodeId::Requirement(requirements[i].id@),
    ));
}

/// A set that holds the start and every requirement that cannot avoid it
/// holds every unobtainable node.
proof fn lemma_closed_holds_unobtainable(
    start: Set<NodeId>,
    requirements: Seq<Requirement>,
    members: Set<NodeId>,
    k: nat,
)
    requires
        start.subset_of(members),
        forall|i: int|
            0 <= i < requirements.len() && #[trigger] blocked(requirements, i, members)
                ==> members.contains(NodeId::Requirement(requirements[i].id@)),
    ensures
        unobtainable_after(start, requirements, k).subset_of(members),
    decreases k,
{
    if k > 0 {
        let before = unobtainable_after(start, requirements, (k - 1) as nat);
        lemma_closed_holds_unobtainable(start, requirements, members, (k - 1) as nat);
        assert forall|n: NodeId|
            unobtainable_after(start, requirements, k).contains(n) implies members.contains(n) by {
            if !before.contains(n) {
                let i = choose|i: int|
                    0 <= i < requirements.len() && #[trigger] blocked(requirements, i, before) && n
                        == NodeId::Requirement(requirements[i].id@);
                lemma_blocked_monotone(requirements, i, before, members);
            }
        }
    }
}

/// Tool qualities as pairs of identifier and level, in order.
pub open spec fn quality_bans(v: Seq<Quality>) -> Seq<(Seq<char>, i32)> {
    v.map_values(|q: Quality| (q.id@, q.level))
}

/// The ban that forward reachability applies by default: chemistry at
/// level two or above.
pub open spec fn default_bans() -> Seq<(Seq<char>, i32)> {
    seq![("CHEM"@, 2i32)]
}

/// Some declared quality meets or exceeds a banned quality of the same
/// identifier.
pub open spec fn quality_excluded(qualities: Seq<Quality>, banned: Seq<(Seq<char>, i32)>) -> bool {
    exists|i: int, j: int|
        0 <= i < qualities.len() && 0 <= j < banned.len() && (#[trigger] qualities[i]).id@ == (
        #[trigger] banned[j]).0 && qualities[i].level >= banned[j].1
}

/// The rule of a requirement: it yields the requirement's node from its
/// ingredient expression unless its identifier is blacklisted.
pub open spec fn requirement_rule(req: Requirement, blacklist: Seq<String>) -> Rule {
    Rule {
        enabled: !string_ids(blacklist).contains(req.id@),
        target: NodeId::Requirement(req.id@),
        suffix: None,
        groups: expression_model(req.components@),
    }
}

/// The rule of a recipe in a pantry expansion: it yields the result's item
/// node unless the result is blacklisted.
pub open spec fn pantry_recipe_rule(rec: Recipe, blacklist: Seq<String>) -> Rule {
    Rule {
        enabled: !string_ids(blacklist).contains(rec.result@),
        target: NodeId::Item(rec.result@),
        suffix: suffix_view(rec.id_suffix),
        groups: expression_model(rec.components@),
    }
}

/// The rule of a recipe in forward reachability: as in a pantry expansion,
/// and further disabled by a banned tool quality or by a group that cannot
/// avoid the unobtainable nodes.
pub open spec fn forward_recipe_rule(
    rec: Recipe,
    blacklist: Seq<String>,
    unobtainable: Set<NodeId>,
    banned: Seq<(Seq<char>, i32)>,
) -> Rule {
    Rule {
        enabled: !string_ids(blacklist).contains(rec.result@) && !quality_excluded(
            rec.qualities@,
            banned,
        ) && !mandatory_unobtainable(expression_model(rec.components@), unobtainable),
        target: NodeId::Item(rec.result@),
        suffix: suffix_view(rec.id_suffix),
        groups: expression_model(rec.components@),
    }
}

/// The rules of forward reachability: those of the requirements, then
/// those of the recipes.
pub open spec fn forward_rules(
    requirements: Seq<Requirement>,
    recipes: Seq<Recipe>,
    blacklist: Seq<String>,
    unobtainables: Seq<String>,
    banned: Seq<(Seq<char>, i32)>,
) -> Seq<Rule> {
    let unobtainable = unobtainable_closure(named_nodes(unobtainables), requirements);
    Seq::new(
        requirements.len() + recipes.len(),
        |i: int|
            if i < requirements.len() {
                requirement_rule(requirements[i], blacklist)
            } else {
                forward_recipe_rule(
                    recipes[i - requirements.len()],
                    blacklist,
                    unobtainable,
                    banned,
                )
            },
    )
}

/// The rules of a pantry expansion: those of the requirements, then those
/// of the recipes.
pub open spec fn pantry_rules(
    requirements: Seq<Requirement>,
    recipes: Seq<Recipe>,
    blacklist: Seq<String>,
) -> Seq<Rule> {
    Seq::new(
        requirements.len() + recipes.len(),
        |i: int|
            if i < requirements.len() {
                requirement_rule(requirements[i], blacklist)
            } else {
                pantry_recipe_rule(recipes[i - requirements.len()], blacklist)
            },
    )
}

/// Whether the list holds a string that reads as `s`.
pub fn contains_name(names: &[String], s: &String) -> (r: bool)
    ensures
        r == string_ids(names@).contains(s@),
{
    let mut i: usize = 0;
    while i < names.len()
        invariant
            i <= names.len(),
            forall|j: int| 0 <= j < i ==> names@[j]@ != s@,
        decreases names.len() - i,
    {
        if names[i] == *s {
            assert(string_ids(names@)[i as int] == s@);
            return true;
        }
        i += 1;
    }
    false
}

impl Node {
    /// The item node of a recipe's result.
    pub fn from_recipe(rec: &Recipe) -> (r: Node)
        ensures
            r@ == NodeId::Item(rec.result@),
    {
        Node::Item(rec.result.clone())
    }

    /// The node of a requirement.
    pub fn from_requirement(req: &Requirement) -> (r: Node)
        ensures
            r@ == NodeId::Requirement(req.id@),
    {
        Node::RequirementItem(req.id.clone())
    }
}

impl Edge {
    /// The edge from `node` to a recipe's result, under the recipe's
    /// variant suffix.
    pub fn from_recipe(node: &Node, rec: &Recipe) -> (r: Edge)
        ensures
            r@.source == node@,
            r@.dest == NodeId::Item(rec.result@),
            r@.suffix == suffix_view(rec.id_suffix),
    {
        Edge {
            source: node.duplicate(),
            dest: Node::from_recipe(rec),
            recipe_suffix: duplicate_suffix(&rec.id_suffix),
        }
    }

    /// The edge from `node` to a requirement, which carries no suffix.
    pub fn from_requirement(node: &Node, req: &Requirement) -> (r: Edge)
        ensures
            r@.source == node@,
            r@.dest == NodeId::Requirement(req.id@),
            r@.suffix == None::<Seq<char>>,
    {
        Edge { source: node.duplicate(), dest: Node::from_requirement(req), recipe_suffix: None }
    }
}

/// Whether the node is the one that the alternative stands for.
pub fn node_matches_component_desc(node: &Node, desc: &ComponentDesc) -> (r: bool)
    ensures
        r == (node@ == alternative_node(*desc)),
{
    match (node, desc) {
        (Node::Item(ni), ComponentDesc::Plain(nc, _)) => *ni == *nc,
        (Node::RequirementItem(ni), ComponentDesc::List(nc, _)) => *ni == *nc,
        _ => false,
    }
}

/// Whether some group of the expression has nothing but alternatives among
/// `item_ids`, each taken with its own kind.
pub fn has_mandatory_ingredient(item_ids: &[Node], components: &Vec<Vec<ComponentDesc>>) -> (r:
    bool)
    ensures
        r == mandatory_unobtainable(expression_model(components@), node_ids(item_ids@).to_set()),
{
    let ghost groups = expression_model(components@);
    let ghost nodes = node_ids(item_ids@).to_set();
    let mut g: usize = 0;
    while g < components.len()
        invariant
            g <= components.len(),
            groups == expression_model(components@),
            nodes == node_ids(item_ids@).to_set(),
            forall|h: int| 0 <= h < g ==> !group_blocked(#[trigger] groups[h], nodes),
        decreases components.len() - g,
    {
        let group = &components[g];
        let mut all_bad = true;
        let mut a: usize = 0;
        while a < group.len() && all_bad
            invariant
                g < components.len(),
                a <= group.len(),
                group == &components[g as int],
                groups == expression_model(components@),
                nodes == node_ids(item_ids@).to_set(),
                all_bad ==> forall|b: int|
                    0 <= b < a ==> nodes.contains(#[trigger] groups[g as int][b]),
                !all_bad ==> !group_blocked(groups[g as int], nodes),
            decreases group.len() - a,
        {
            let alternative = Node::from_component(&group[a]);
            assert(alternative@ == groups[g as int][a as int]);
            if !contains_node(item_ids, &alternative) {
                all_bad = false;
            }
            a += 1;
        }
        if all_bad {
            assert(group_blocked(groups[g as int], nodes));
            return true;
        }
        g += 1;
    }
    false
}

/// When every group of the expression has an alternative among `item_ids`,
/// the nodes of `item_ids` that some alternative stands for; otherwise
/// nothing.
pub fn has_enough_components(item_ids: &[Node], components: &Vec<Vec<ComponentDesc>>) -> (r:
    Option<Vec<Node>>)
    ensures
        r.is_some() <==> strict_satisfied(
            expression_model(components@),
            node_ids(item_ids@).to_set(),
        ),
        r.is_some() ==> forall|n: NodeId|
            node_ids(r.unwrap()@).contains(n) <==> (node_ids(item_ids@).contains(n) && exists|
                g: int,
                a: int,
            |
                0 <= g < components.len() && 0 <= a < components[g]@.len()
                    && #[trigger] expression_model(components@)[g][a] == n),
{
    if !strictly_satisfied(item_ids, components) {
        return None;
    }
    let ghost groups = expression_model(components@);
    let mut usables: Vec<Node> = Vec::new();
    let mut g: usize = 0;
    while g < components.len()
        invariant
            g <= components.len(),
            groups == expression_model(components@),
            forall|n: NodeId|
                node_ids(usables@).contains(n) <==> (node_ids(item_ids@).contains(n) && exists|
                    h: int,
                    b: int,
                |
                    0 <= h < g && 0 <= b < components[h]@.len() && #[trigger] groups[h][b] == n),
        decreases components.len() - g,
    {
        let group = &components[g];
        let mut a: usize = 0;
        while a < group.len()
            invariant
                g < components.len(),
                a <= group.len(),
                group == &components[g as int],
                groups == expression_model(components@),
                forall|n: NodeId|
                    node_ids(usables@).contains(n) <==> (node_ids(item_ids@).contains(n) && exists|
                        h: int,
                        b: int,
                    |
                        (0 <= h < g && 0 <= b < components[h]@.len() || h == g && 0 <= b < a)
                            && #[trigger] groups[h][b] == n),
            decreases group.len() - a,
        {
            let alternative = Node::from_component(&group[a]);
            assert(alternative@ == groups[g as int][a as int]);
            if contains_node(item_ids, &alternative) {
                let ghost before = node_ids(usables@);
                usables.push(alternative);
                proof {
                    assert(node_ids(usables@) =~= before.push(groups[g as int][a as int]));
                    lemma_push_contains(before, groups[g as int][a as int]);
                }
            }
            a += 1;
        }
        g += 1;
    }
    Some(usables)
}

/// Whether some declared quality meets or exceeds a banned one.
pub fn excluded_by_quality(qualities: &Vec<Quality>, banned: &[Quality]) -> (r: bool)
    ensures
        r == quality_excluded(qualities@, quality_bans(banned@)),
{
    let ghost bans = quality_bans(banned@);
    let mut i: usize = 0;
    while i < qualities.len()
        invariant
            i <= qualities.len(),
            bans == quality_bans(banned@),
            forall|h: int, j: int|
                0 <= h < i && 0 <= j < bans.len() ==> !((#[trigger] qualities@[h]).id@ == (
                #[trigger] bans[j]).0 && qualities@[h].level >= bans[j].1),
        decreases qualities.len() - i,
    {
        let mut j: usize = 0;
        while j < banned.len()
            invariant
                i < qualities.len(),
                j <= banned.len(),
                bans == quality_bans(banned@),
                forall|h: int, k: int|
                    0 <= h < i && 0 <= k < bans.len() ==> !((#[trigger] qualities@[h]).id@ == (
                    #[trigger] bans[k]).0 && qualities@[h].level >= bans[k].1),
                forall|k: int|
                    0 <= k < j ==> !(qualities@[i as int].id@ == (#[trigger] bans[k]).0
                        && qualities@[i as int].level >= bans[k].1),
            decreases banned.len() - j,
        {
            assert(bans[j as int] == (banned@[j as int].id@, banned@[j as int].level));
            if qualities[i].id == banned[j].id && qualities[i].level >= banned[j].level {
                return true;
            }
            j += 1;
        }
        i += 1;
    }
    false
}

proof fn lemma_named_nodes_push(names: Seq<String>, x: String)
    ensures
        forall|n: NodeId|
            named_nodes(names.push(x)).contains(n) <==> (named_nodes(names).contains(n) || n.name()
                == x@),
{
    assert(string_ids(names.push(x)) =~= string_ids(names).push(x@));
    lemma_push_contains(string_ids(names), x@);
}

/// What holds of the unobtainable nodes found so far: the start is among
/// them, each of them is unobtainable, and every marked requirement is
/// among them.
pub open spec fn marking(
    found: Seq<NodeId>,
    marks: Seq<bool>,
    start: Set<NodeId>,
    requirements: Seq<Requirement>,
) -> bool {
    &&& marks.len() == requirements.len()
    &&& forall|n: NodeId| start.contains(n) ==> #[trigger] found.contains(n)
    &&& forall|n: NodeId| #[trigger] found.contains(n) ==> is_unobtainable(start, requirements, n)
    &&& forall|i: int|
        0 <= i < marks.len() && #[trigger] marks[i] ==> found.contains(
            NodeId::Requirement(requirements[i].id@),
        )
}

/// One walk over the requirements: each one that is not marked and cannot
/// avoid the nodes found so far joins them and is marked.
fn mark_blocked(
    found: &mut Vec<Node>,
    marks: &mut Vec<bool>,
    requirements: &[Requirement],
    Ghost(start): Ghost<Set<NodeId>>,
) -> (changed: bool)
    requires
        marking(node_ids(old(found)@), old(marks)@, start, requirements@),
    ensures
        marking(node_ids(final(found)@), final(marks)@, start, requirements@),
        changed ==> unmarked(final(marks)@, requirements.len() as int) < unmarked(
            old(marks)@,
            requirements.len() as int,
        ),
        !changed ==> final(found)@ == old(found)@ && final(marks)@ == old(marks)@,
        !changed ==> forall|i: int|
            0 <= i < requirements.len() ==> old(marks)@[i] || !#[trigger] blocked(
                requirements@,
                i,
                node_ids(old(found)@).to_set(),
            ),
{
    let ghost found0 = found@;
    let ghost marks0 = marks@;
    let ghost n = requirements.len() as int;
    let mut changed = false;
    let mut k: usize = 0;
    while k < requirements.len()
        invariant
            k <= requirements.len(),
            n == requirements.len(),
            marking(node_ids(found@), marks@, start, requirements@),
            unmarked(marks@, n) <= unmarked(marks0, n),
            changed ==> unmarked(marks@, n) < unmarked(marks0, n),
            !changed ==> found@ == found0 && marks@ == marks0,
            !changed ==> forall|i: int|
                0 <= i < k ==> marks0[i] || !#[trigger] blocked(
                    requirements@,
                    i,
                    node_ids(found0).to_set(),
                ),
        decreases requirements.len() - k,
    {
        if !marks[k] && has_mandatory_ingredient(found.as_slice(), &requirements[k].components) {
            let ghost before = node_ids(found@);
            let ghost marks_before = marks@;
            proof {
                lemma_joins(start, requirements@, k as int, before.to_set());
                lemma_mark(marks_before, k as int, n);
            }
            found.push(Node::RequirementItem(requirements[k].id.clone()));
            marks.set(k, true);
            changed = true;
            proof {
                let added = NodeId::Requirement(requirements@[k as int].id@);
                assert(node_ids(found@) =~= before.push(added));
                lemma_push_contains(before, added);
            }
        }
        k += 1;
    }
    changed
}

/// The nodes that forward reachability treats as unobtainable: both nodes
/// of every listed identifier, and every requirement that cannot avoid the
/// unobtainable nodes, whatever the order of the requirement table.
pub fn unobtainable_nodes(requirements: &[Requirement], unobtainables: &[String]) -> (r: Vec<Node>)
    ensures
        node_ids(r@).to_set() == unobtainable_closure(named_nodes(unobtainables@), requirements@),
{
    let mut found: Vec<Node> = Vec::new();
    let mut i: usize = 0;
    assert(node_ids(found@).to_set() =~= named_nodes(unobtainables@.take(0)));
    while i < unobtainables.len()
        invariant
            i <= unobtainables.len(),
            node_ids(found@).to_set() == named_nodes(unobtainables@.take(i as int)),
        decreases unobtainables.len() - i,
    {
        let ghost before = node_ids(found@);
        found.push(Node::Item(unobtainables[i].clone()));
        found.push(Node::RequirementItem(unobtainables[i].clone()));
        proof {
            let x = unobtainables@[i as int];
            let first = NodeId::Item(x@);
            let second = NodeId::Requirement(x@);
            assert(node_ids(found@) =~= before.push(first).push(second));
            lemma_push_contains(before, first);
            lemma_push_contains(before.push(first), second);
            assert(unobtainables@.take(i + 1) =~= unobtainables@.take(i as int).push(x));
            lemma_named_nodes_push(unobtainables@.take(i as int), x);
            assert forall|n: NodeId|
                node_ids(found@).to_set().contains(n) <==> named_nodes(
                    unobtainables@.take(i + 1),
                ).contains(n) by {
                assert(before.to_set().contains(n) <==> before.contains(n));
                assert(n.name() == x@ <==> (n == first || n == second));
            }
            assert(node_ids(found@).to_set() =~= named_nodes(unobtainables@.take(i + 1)));
        }
        i += 1;
    }
    assert(unobtainables@.take(unobtainables.len() as int) =~= unobtainables@);
    let ghost start = named_nodes(unobtainables@);
    let mut marks: Vec<bool> = Vec::new();
    let mut m: usize = 0;
    while m < requirements.len()
        invariant
            m <= requirements.len(),
            marks.len() == m,
            forall|j: int| 0 <= j < m ==> !marks@[j],
        decreases requirements.len() - m,
    {
        marks.push(false);
        m += 1;
    }
    proof {
        assert forall|n: NodeId| #[trigger] node_ids(found@).contains(n) implies is_unobtainable(
            start,
            requirements@,
            n,
        ) by {
            assert(node_ids(found@).to_set().contains(n));
            assert(unobtainable_after(start, requirements@, 0).contains(n));
        }
        assert forall|n: NodeId| start.contains(n) implies #[trigger] node_ids(found@).contains(
            n,
        ) by {
            assert(node_ids(found@).to_set().contains(n));
        }
    }
    let mut changed = true;
    while changed
        invariant
            start == named_nodes(unobtainables@),
            marking(node_ids(found@), marks@, start, requirements@),
            !changed ==> forall|i: int|
                0 <= i < requirements.len() ==> marks@[i] || !#[trigger] blocked(
                    requirements@,
                    i,
                    node_ids(found@).to_set(),
                ),
        decreases
                unmarked(marks@, requirements.len() as int) + if changed {
                    1int
                } else {
                    0int
                },
    {
        proof {
            lemma_unmarked_bounds(marks@, requirements.len() as int);
        }
        changed = mark_blocked(&mut found, &mut marks, requirements, Ghost(start));
        proof {
            lemma_unmarked_bounds(marks@, requirements.len() as int);
        }
    }
    proof {
        let members = node_ids(found@).to_set();
        assert(start.subset_of(members));
        assert forall|n: NodeId| is_unobtainable(start, requirements@, n) implies members.contains(
            n,
        ) by {
            let k = choose|k: nat| (#[trigger] unobtainable_after(start, requirements@, k)).contains(
                n,
            );
            lemma_closed_holds_unobtainable(start, requirements@, members, k);
        }
        assert(members =~= unobtainable_closure(start, requirements@));
    }
    found
}

fn requirement_production<'a>(req: &'a Requirement, blacklist: &[String]) -> (p: Production<'a>)
    ensures
        p@ == requirement_rule(*req, blacklist@),
{
    Production {
        enabled: !contains_name(blacklist, &req.id),
        target: Node::from_requirement(req),
        suffix: None,
        groups: &req.components,
    }
}

fn pantry_recipe_production<'a>(rec: &'a Recipe, blacklist: &[String]) -> (p: Production<'a>)
    ensures
        p@ == pantry_recipe_rule(*rec, blacklist@),
{
    Production {
        enabled: !contains_name(blacklist, &rec.result),
        target: Node::from_recipe(rec),
        suffix: duplicate_suffix(&rec.id_suffix),
        groups: &rec.components,
    }
}

fn forward_recipe_production<'a>(
    rec: &'a Recipe,
    blacklist: &[String],
    unobtainable: &Vec<Node>,
    banned: &[Quality],
) -> (p: Production<'a>)
    ensures
        p@ == forward_recipe_rule(
            *rec,
            blacklist@,
            node_ids(unobtainable@).to_set(),
            quality_bans(banned@),
        ),
{
    let enabled = !contains_name(blacklist, &rec.result) && !excluded_by_quality(
        &rec.qualities,
        banned,
    ) && !has_mandatory_ingredient(unobtainable.as_slice(), &rec.components);
    Production {
        enabled,
        target: Node::from_recipe(rec),
        suffix: duplicate_suffix(&rec.id_suffix),
        groups: &rec.components,
    }
}

/// Forward reachability from held items, with the banned tool qualities
/// given by the caller. The graph is the closure of the held items' nodes
/// under loose satisfaction: a requirement or recipe that is not excluded
/// yields its node as soon as one alternative of one group is a node of the
/// graph, and every such alternative contributes an edge.
pub fn forward_reachable(
    from: &[String],
    recipes_db: &[Recipe],
    requirements_db: &[Requirement],
    blacklist: &[String],
    unobtainables: &[String],
    banned: &[Quality],
) -> (graph: CraftableGraph)
    ensures
        is_closure(
            graph,
            forward_rules(
                requirements_db@,
                recipes_db@,
                blacklist@,
                unobtainables@,
                quality_bans(banned@),
            ),
            item_seeds(from@).to_set(),
            false,
        ),
{
    forward_reachable_counted(
        from,
        recipes_db,
        requirements_db,
        blacklist,
        unobtainables,
        banned,
    ).0
}

/// Forward reachability with the number of passes over the two tables
/// that it took, and the number of those passes that added a node. Every
/// pass but the last adds an edge: there are no more passes than one above
/// the edges of the graph, nor than one above the alternatives of all
/// requirements and recipes. No more passes add a node than there are
/// requirements and recipes.
pub fn forward_reachable_counted(
    from: &[String],
    recipes_db: &[Recipe],
    requirements_db: &[Requirement],
    blacklist: &[String],
    unobtainables: &[String],
    banned: &[Quality],
) -> (r: (CraftableGraph, u128, usize))
    ensures
        is_closure(
            r.0,
            forward_rules(
                requirements_db@,
                recipes_db@,
                blacklist@,
                unobtainables@,
                quality_bans(banned@),
            ),
            item_seeds(from@).to_set(),
            false,
        ),
        1 <= r.1 <= r.0.edges.len() + 1,
        r.1 <= all_slots(
            forward_rules(
                requirements_db@,
                recipes_db@,
                blacklist@,
                unobtainables@,
                quality_bans(banned@),
            ),
            requirements_db.len() + recipes_db.len(),
        ).len() + 1,
        r.2 <= requirements_db.len() + recipes_db.len(),
        r.2 < r.1,
{
    let ghost rules = forward_rules(
        requirements_db@,
        recipes_db@,
        blacklist@,
        unobtainables@,
        quality_bans(banned@),
    );
    let mut seeds: Vec<Node> = Vec::new();
    let mut s: usize = 0;
    while s < from.len()
        invariant
            s <= from.len(),
            seeds.len() == s,
            forall|j: int| 0 <= j < s ==> (#[trigger] seeds@[j])@ == NodeId::Item(from@[j]@),
        decreases from.len() - s,
    {
        seeds.push(Node::Item(from[s].clone()));
        s += 1;
    }
    assert(node_ids(seeds@) =~= item_seeds(from@));
    let unobtainable = unobtainable_nodes(requirements_db, unobtainables);
    let mut prods: Vec<Production> = Vec::new();
    let mut i: usize = 0;
    while i < requirements_db.len()
        invariant
            i <= requirements_db.len(),
            prods.len() == i,
            forall|j: int|
                0 <= j < i ==> (#[trigger] prods@[j])@ == requirement_rule(
                    requirements_db@[j],
                    blacklist@,
                ),
        decreases requirements_db.len() - i,
    {
        prods.push(requirement_production(&requirements_db[i], blacklist));
        i += 1;
    }
    let mut k: usize = 0;
    while k < recipes_db.len()
        invariant
            k <= recipes_db.len(),
            prods.len() == requirements_db.len() + k,
            forall|j: int|
                0 <= j < requirements_db.len() ==> (#[trigger] prods@[j])@ == requirement_rule(
                    requirements_db@[j],
                    blacklist@,
                ),
            forall|j: int|
                requirements_db.len() <= j < requirements_db.len() + k ==> (#[trigger] prods@[j])@
                    == forward_recipe_rule(
                    recipes_db@[j - requirements_db.len()],
                    blacklist@,
                    node_ids(unobtainable@).to_set(),
                    quality_bans(banned@),
                ),
        decreases recipes_db.len() - k,
    {
        prods.push(forward_recipe_production(&recipes_db[k], blacklist, &unobtainable, banned));
        k += 1;
    }
    assert(rules_of(prods@) =~= rules);
    close_counted(seeds.as_slice(), &prods, false)
}

/// Forward reachability from held items: everything that can be produced
/// from `from`, where recipes that ask for chemistry at level two or above
/// are left out.
pub fn find_everything_craftable_from(
    from: &[String],
    recipes_db: &[Recipe],
    requirements_db: &[Requirement],
    blacklist: &[String],
    unobtainables: &[String],
) -> (graph: CraftableGraph)
    ensures
        is_closure(
            graph,
            forward_rules(
                requirements_db@,
                recipes_db@,
                blacklist@,
                unobtainables@,
                default_bans(),
            ),
            item_seeds(from@).to_set(),
            false,
        ),
{
    let mut banned: Vec<Quality> = Vec::new();
    banned.push(Quality { id: String::from_str("CHEM"), level: 2 });
    assert(quality_bans(banned@) =~= default_bans());
    forward_reachable(
        from,
        recipes_db,
        requirements_db,
        blacklist,
        unobtainables,
        banned.as_slice(),
    )
}

/// How many alternatives an ingredient expression has in all.
pub open spec fn alternatives(components: Seq<Vec<ComponentDesc>>) -> int {
    slot_count(expression_model(components), components.len() as int)
}

/// Where no requirement and no recipe has more than one alternative,
/// forward reachability can add no more edges than there are requirements
/// and recipes: it then takes no more passes that change the graph than
/// that, and one pass more.
pub proof fn lemma_forward_passes_bounded(
    requirements: Seq<Requirement>,
    recipes: Seq<Recipe>,
    blacklist: Seq<String>,
    unobtainables: Seq<String>,
    banned: Seq<(Seq<char>, i32)>,
)
    requires
        forall|i: int|
            0 <= i < requirements.len() ==> alternatives(
                (#[trigger] requirements[i]).components@,
            ) <= 1,
        forall|i: int|
            0 <= i < recipes.len() ==> alternatives((#[trigger] recipes[i]).components@) <= 1,
    ensures
        all_slots(
            forward_rules(requirements, recipes, blacklist, unobtainables, banned),
            (requirements.len() + recipes.len()) as int,
        ).len() <= requirements.len() + recipes.len(),
{
    let rules = forward_rules(requirements, recipes, blacklist, unobtainables, banned);
    assert forall|i: int| 0 <= i < rules.len() implies slot_count(
        (#[trigger] rules[i]).groups,
        rules[i].groups.len() as int,
    ) <= 1 by {
        if i < requirements.len() {
            assert(rules[i].groups == expression_model(requirements[i].components@));
        } else {
            assert(rules[i].groups == expression_model(
                recipes[i - requirements.len()].components@,
            ));
        }
    }
    lemma_single_alternatives(rules, rules.len() as int);
}

/// Pantry expansion: the closure of the given nodes under strict
/// satisfaction. A requirement or recipe that is not blacklisted yields its
/// node once every one of its groups has an alternative among the nodes of
/// the graph, and then every alternative at hand contributes an edge.
pub fn expand_pantry(
    from: &[Node],
    requirements: &[Requirement],
    recipes: &[Recipe],
    blacklist: &[String],
) -> (graph: CraftableGraph)
    ensures
        is_closure(
            graph,
            pantry_rules(requirements@, recipes@, blacklist@),
            node_ids(from@).to_set(),
            true,
        ),
{
    expand_pantry_counted(from, requirements, recipes, blacklist).0
}

/// Pantry expansion with the number of passes over the two tables that it
/// took, and the number of those passes that added a node. There are no
/// more passes than one above the nodes and edges of the graph, and no more
/// passes that add a node than requirements and recipes.
pub fn expand_pantry_counted(
    from: &[Node],
    requirements: &[Requirement],
    recipes: &[Recipe],
    blacklist: &[String],
) -> (r: (CraftableGraph, u128, usize))
    ensures
        is_closure(
            r.0,
            pantry_rules(requirements@, recipes@, blacklist@),
            node_ids(from@).to_set(),
            true,
        ),
        1 <= r.1 <= r.0.nodes.len() + r.0.edges.len() + 1,
        r.2 <= requirements.len() + recipes.len(),
        r.2 < r.1,
{
    let mut prods: Vec<Production> = Vec::new();
    let mut i: usize = 0;
    while i < requirements.len()
        invariant
            i <= requirements.len(),
            prods.len() == i,
            forall|j: int|
                0 <= j < i ==> (#[trigger] prods@[j])@ == requirement_rule(
                    requirements@[j],
                    blacklist@,
                ),
        decreases requirements.len() - i,
    {
        prods.push(requirement_production(&requirements[i], blacklist));
        i += 1;
    }
    let mut k: usize = 0;
    while k < recipes.len()
        invariant
            k <= recipes.len(),
            prods.len() == requirements.len() + k,
            forall|j: int|
                0 <= j < requirements.len() ==> (#[trigger] prods@[j])@ == requirement_rule(
                    requirements@[j],
                    blacklist@,
                ),
            forall|j: int|
                requirements.len() <= j < requirements.len() + k ==> (#[trigger] prods@[j])@
                    == pantry_recipe_rule(recipes@[j - requirements.len()], blacklist@),
        decreases recipes.len() - k,
    {
        prods.push(pantry_recipe_production(&recipes[k], blacklist));
        k += 1;
    }
    assert(rules_of(prods@) =~= pantry_rules(requirements@, recipes@, blacklist@));
    close_counted(from, &prods, true)
}

/// Alternative `(g, a)` of the expression comes before `(h, b)`.
pub open spec fn comes_before(g: int, a: int, h: int, b: int) -> bool {
    g < h || (g == h && a < b)
}

/// The quantity of the first alternative of the expression that is named
/// `ingredient`, if there is one.
pub fn get_ingredient_multiplicity(components: &Vec<Vec<ComponentDesc>>, ingredient: &str) -> (r:
    Option<i32>)
    ensures
        match r {
            Some(amount) => exists|g: int, a: int|
                0 <= g < components.len() && 0 <= a < components@[g]@.len() && (
                #[trigger] components@[g]@[a]).spec_name() == ingredient@ && components@[g]@[a].spec_amount()
                    == amount && forall|h: int, b: int|
                    0 <= h < components.len() && 0 <= b < components@[h]@.len() && comes_before(
                        h,
                        b,
                        g,
                        a,
                    ) ==> (#[trigger] components@[h]@[b]).spec_name() != ingredient@,
            None => forall|g: int, a: int|
                0 <= g < components.len() && 0 <= a < components@[g]@.len() ==> (
                #[trigger] components@[g]@[a]).spec_name() != ingredient@,
        },
{
    let wanted = ingredient.to_owned();
    let mut g: usize = 0;
    while g < components.len()
        invariant
            g <= components.len(),
            wanted@ == ingredient@,
            forall|h: int, b: int|
                0 <= h < g && 0 <= b < components@[h]@.len() ==> (
                #[trigger] components@[h]@[b]).spec_name() != ingredient@,
        decreases components.len() - g,
    {
        let group = &components[g];
        let mut a: usize = 0;
        while a < group.len()
            invariant
                g < components.len(),
                a <= group.len(),
                group == &components@[g as int],
                wanted@ == ingredient@,
                forall|h: int, b: int|
                    0 <= h < g && 0 <= b < components@[h]@.len() ==> (
                    #[trigger] components@[h]@[b]).spec_name() != ingredient@,
                forall|b: int|
                    0 <= b < a ==> (#[trigger] components@[g as int]@[b]).spec_name()
                        != ingredient@,
            decreases group.len() - a,
        {
            if group[a].name().to_owned() == wanted {
                return Some(group[a].amount());
            }
            a += 1;
        }
        g += 1;
    }
    None
}

} // verus!
